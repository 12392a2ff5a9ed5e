//! The rows of the output tables, column by column.
use crate::event::{
    arg_views, copied_args, copied_option, row_views, Arg, ArgView, DependencyRow, RowView, TraceRow,
};
use crate::text::{copied, opt_text};
use vstd::prelude::*;

verus! {

/// The type of a column.
#[derive(Debug, Clone, Copy, PartialEq, Eq, Structural)]
pub enum ColumnKind {
    Utf8,
    Float64,
    UInt64,
    UInt32,
    Int64,
}

/// A field of a table.
#[derive(Debug, Clone, Copy)]
pub struct Field {
    pub name: &'static str,
    pub kind: ColumnKind,
    pub nullable: bool,
}

pub struct FieldView {
    pub name: Seq<char>,
    pub kind: ColumnKind,
    pub nullable: bool,
}

impl View for Field {
    type V = FieldView;

    open spec fn view(&self) -> FieldView {
        FieldView { name: self.name@, kind: self.kind, nullable: self.nullable }
    }
}

pub open spec fn field(name: Seq<char>, kind: ColumnKind, nullable: bool) -> FieldView {
    FieldView { name, kind, nullable }
}

pub open spec fn field_views(fields: Seq<Field>) -> Seq<FieldView> {
    Seq::new(fields.len(), |i: int| fields[i]@)
}

/// A value of a table. Microseconds are kept as nanoseconds, and arguments as a list
/// that becomes JSON text.
#[derive(Debug)]
pub enum Cell {
    Text(Option<String>),
    Args(Vec<Arg>),
    Micros(Option<i64>),
    UInt64(Option<u64>),
    UInt32(Option<u32>),
    Int64(Option<i64>),
}

pub enum CellView {
    Text(Option<Seq<char>>),
    Args(Seq<ArgView>),
    Micros(Option<i64>),
    UInt64(Option<u64>),
    UInt32(Option<u32>),
    Int64(Option<i64>),
}

impl View for Cell {
    type V = CellView;

    open spec fn view(&self) -> CellView {
        match self {
            Cell::Text(t) => CellView::Text(opt_text(*t)),
            Cell::Args(a) => CellView::Args(arg_views(a@)),
            Cell::Micros(n) => CellView::Micros(*n),
            Cell::UInt64(n) => CellView::UInt64(*n),
            Cell::UInt32(n) => CellView::UInt32(*n),
            Cell::Int64(n) => CellView::Int64(*n),
        }
    }
}

/// The value can stand in a column of this field.
pub open spec fn fits(cell: CellView, f: FieldView) -> bool {
    match cell {
        CellView::Text(t) => f.kind == ColumnKind::Utf8 && (t is None ==> f.nullable),
        CellView::Args(_) => f.kind == ColumnKind::Utf8,
        CellView::Micros(n) => f.kind == ColumnKind::Float64 && (n is None ==> f.nullable),
        CellView::UInt64(n) => f.kind == ColumnKind::UInt64 && (n is None ==> f.nullable),
        CellView::UInt32(n) => f.kind == ColumnKind::UInt32 && (n is None ==> f.nullable),
        CellView::Int64(n) => f.kind == ColumnKind::Int64 && (n is None ==> f.nullable),
    }
}

/// A table: its fields, and one column of values for each of them.
#[derive(Debug)]
pub struct TableData {
    pub fields: Vec<Field>,
    pub columns: Vec<Vec<Cell>>,
}

fn text_cell(text: &str) -> (cell: Cell)
    ensures
        cell@ == CellView::Text(Some(text@)),
{
    Cell::Text(Some(copied(text)))
}

fn make_field(name: &'static str, kind: ColumnKind, nullable: bool) -> (f: Field)
    ensures
        f@ == field(name@, kind, nullable),
{
    Field { name, kind, nullable }
}

/// The fields of the aligned event table.
pub open spec fn trace_schema() -> Seq<FieldView> {
    seq![
        field("report"@, ColumnKind::Utf8, false),
        field("event_type"@, ColumnKind::Utf8, false),
        field("cat"@, ColumnKind::Utf8, false),
        field("name"@, ColumnKind::Utf8, false),
        field("ph"@, ColumnKind::Utf8, false),
        field("ts_us"@, ColumnKind::Float64, false),
        field("dur_us"@, ColumnKind::Float64, true),
        field("aligned_ts_us"@, ColumnKind::Float64, false),
        field("pid"@, ColumnKind::Utf8, false),
        field("tid"@, ColumnKind::Utf8, false),
        field("args_json"@, ColumnKind::Utf8, false),
        field("event_id"@, ColumnKind::Utf8, true),
        field("launch_event_id"@, ColumnKind::Utf8, true),
        field("stream_id"@, ColumnKind::UInt64, true),
        field("correlation_id"@, ColumnKind::UInt32, true),
        field("stream_sequence"@, ColumnKind::UInt64, true),
        field("depends_on_event_id"@, ColumnKind::Utf8, true),
        field("dependency_type"@, ColumnKind::Utf8, true),
        field("device_id"@, ColumnKind::Int64, true),
        field("metric_id"@, ColumnKind::UInt32, true),
        field("metric_value"@, ColumnKind::Int64, true),
        field("metric_unit"@, ColumnKind::Utf8, true),
    ]
}

fn trace_fields() -> (fields: Vec<Field>)
    ensures
        field_views(fields@) == trace_schema(),
{
    let fields = vec![
        make_field("report", ColumnKind::Utf8, false),
        make_field("event_type", ColumnKind::Utf8, false),
        make_field("cat", ColumnKind::Utf8, false),
        make_field("name", ColumnKind::Utf8, false),
        make_field("ph", ColumnKind::Utf8, false),
        make_field("ts_us", ColumnKind::Float64, false),
        make_field("dur_us", ColumnKind::Float64, true),
        make_field("aligned_ts_us", ColumnKind::Float64, false),
        make_field("pid", ColumnKind::Utf8, false),
        make_field("tid", ColumnKind::Utf8, false),
        make_field("args_json", ColumnKind::Utf8, false),
        make_field("event_id", ColumnKind::Utf8, true),
        make_field("launch_event_id", ColumnKind::Utf8, true),
        make_field("stream_id", ColumnKind::UInt64, true),
        make_field("correlation_id", ColumnKind::UInt32, true),
        make_field("stream_sequence", ColumnKind::UInt64, true),
        make_field("depends_on_event_id", ColumnKind::Utf8, true),
        make_field("dependency_type", ColumnKind::Utf8, true),
        make_field("device_id", ColumnKind::Int64, true),
        make_field("metric_id", ColumnKind::UInt32, true),
        make_field("metric_value", ColumnKind::Int64, true),
        make_field("metric_unit", ColumnKind::Utf8, true),
    ];
    assert(field_views(fields@) =~= trace_schema());
    fields
}

/// The value of a row in the `j`th column.
pub open spec fn trace_cell(row: RowView, j: int) -> CellView {
    if j == 0 {
        CellView::Text(Some(row.report))
    } else if j == 1 {
        CellView::Text(Some(row.event_type))
    } else if j == 2 {
        CellView::Text(Some(row.cat))
    } else if j == 3 {
        CellView::Text(Some(row.name))
    } else if j == 4 {
        CellView::Text(Some(row.ph))
    } else if j == 5 {
        CellView::Micros(Some(row.ts_ns))
    } else if j == 6 {
        CellView::Micros(row.dur_ns)
    } else if j == 7 {
        CellView::Micros(Some(row.aligned_ns))
    } else if j == 8 {
        CellView::Text(Some(row.pid))
    } else if j == 9 {
        CellView::Text(Some(row.tid))
    } else if j == 10 {
        CellView::Args(row.args)
    } else if j == 11 {
        CellView::Text(row.event_id)
    } else if j == 12 {
        CellView::Text(row.launch_event_id)
    } else if j == 13 {
        CellView::UInt64(row.stream_id)
    } else if j == 14 {
        CellView::UInt32(row.correlation_id)
    } else if j == 15 {
        CellView::UInt64(row.stream_sequence)
    } else if j == 16 {
        CellView::Text(row.depends_on_event_id)
    } else if j == 17 {
        CellView::Text(row.dependency_type)
    } else if j == 18 {
        CellView::Int64(row.device_id)
    } else if j == 19 {
        CellView::UInt32(row.metric_id)
    } else if j == 20 {
        CellView::Int64(row.metric_value)
    } else {
        CellView::Text(row.metric_unit)
    }
}

fn make_trace_cell(row: &TraceRow, j: usize) -> (cell: Cell)
    requires
        j < 22,
    ensures
        cell@ == trace_cell(row@, j as int),
{
    match j {
        0 => text_cell(row.report.as_str()),
        1 => text_cell(row.event_type.as_str()),
        2 => text_cell(row.cat),
        3 => text_cell(row.name.as_str()),
        4 => text_cell(row.ph),
        5 => Cell::Micros(Some(row.ts_ns)),
        6 => Cell::Micros(row.dur_ns),
        7 => Cell::Micros(Some(row.aligned_ns)),
        8 => text_cell(row.pid.as_str()),
        9 => text_cell(row.tid.as_str()),
        10 => Cell::Args(copied_args(&row.args)),
        11 => Cell::Text(copied_option(&row.event_id)),
        12 => Cell::Text(copied_option(&row.launch_event_id)),
        13 => Cell::UInt64(row.stream_id),
        14 => Cell::UInt32(row.correlation_id),
        15 => Cell::UInt64(row.stream_sequence),
        16 => Cell::Text(copied_option(&row.depends_on_event_id)),
        17 => Cell::Text(copied_option(&row.dependency_type)),
        18 => Cell::Int64(row.device_id),
        19 => Cell::UInt32(row.metric_id),
        20 => Cell::Int64(row.metric_value),
        _ => Cell::Text(copied_option(&row.metric_unit)),
    }
}

/// The values of the rows in one column.
pub open spec fn trace_column(rows: Seq<RowView>, j: int) -> Seq<CellView> {
    Seq::new(rows.len(), |i: int| trace_cell(rows[i], j))
}

pub open spec fn cell_views(cells: Seq<Cell>) -> Seq<CellView> {
    Seq::new(cells.len(), |i: int| cells[i]@)
}

/// The aligned event table.
pub fn trace_rows_batch(rows: Vec<TraceRow>) -> (table: TableData)
    ensures
        field_views(table.fields@) == trace_schema(),
        table.columns@.len() == trace_schema().len(),
        forall|j: int|
            0 <= j < table.columns@.len() ==> cell_views((#[trigger] table.columns@[j])@) == trace_column(
                row_views(rows@),
                j,
            ),
{
    let mut columns: Vec<Vec<Cell>> = Vec::new();
    for j in 0..22usize
        invariant
            columns@.len() == j,
            forall|k: int|
                0 <= k < j ==> cell_views((#[trigger] columns@[k])@) == trace_column(row_views(rows@), k),
    {
        let mut column: Vec<Cell> = Vec::new();
        for i in 0..rows.len()
            invariant
                j < 22,
                column@.len() == i,
                forall|k: int| 0 <= k < i ==> (#[trigger] column@[k])@ == trace_cell(rows@[k]@, j as int),
        {
            column.push(make_trace_cell(&rows[i], j));
        }
        assert(cell_views(column@) =~= trace_column(row_views(rows@), j as int));
        columns.push(column);
    }
    TableData { fields: trace_fields(), columns }
}

/// Every value of the aligned event table fits its column.
pub proof fn lemma_trace_cells_fit(row: RowView, j: int)
    requires
        0 <= j < trace_schema().len(),
    ensures
        fits(trace_cell(row, j), trace_schema()[j]),
{
}

/// The fields of the dependency table.
pub open spec fn dependency_schema() -> Seq<FieldView> {
    seq![
        field("report"@, ColumnKind::Utf8, false),
        field("stream_id"@, ColumnKind::UInt64, false),
        field("stream_sequence"@, ColumnKind::UInt64, false),
        field("predecessor_event_id"@, ColumnKind::Utf8, false),
        field("predecessor_kernel"@, ColumnKind::Utf8, false),
        field("predecessor_ts_us"@, ColumnKind::Float64, false),
        field("predecessor_dur_us"@, ColumnKind::Float64, false),
        field("successor_event_id"@, ColumnKind::Utf8, false),
        field("successor_kernel"@, ColumnKind::Utf8, false),
        field("successor_ts_us"@, ColumnKind::Float64, false),
        field("successor_dur_us"@, ColumnKind::Float64, false),
        field("gap_us"@, ColumnKind::Float64, false),
        field("dependency_type"@, ColumnKind::Utf8, false),
    ]
}

fn dependency_fields() -> (fields: Vec<Field>)
    ensures
        field_views(fields@) == dependency_schema(),
{
    let fields = vec![
        make_field("report", ColumnKind::Utf8, false),
        make_field("stream_id", ColumnKind::UInt64, false),
        make_field("stream_sequence", ColumnKind::UInt64, false),
        make_field("predecessor_event_id", ColumnKind::Utf8, false),
        make_field("predecessor_kernel", ColumnKind::Utf8, false),
        make_field("predecessor_ts_us", ColumnKind::Float64, false),
        make_field("predecessor_dur_us", ColumnKind::Float64, false),
        make_field("successor_event_id", ColumnKind::Utf8, false),
        make_field("successor_kernel", ColumnKind::Utf8, false),
        make_field("successor_ts_us", ColumnKind::Float64, false),
        make_field("successor_dur_us", ColumnKind::Float64, false),
        make_field("gap_us", ColumnKind::Float64, false),
        make_field("dependency_type", ColumnKind::Utf8, false),
    ];
    assert(field_views(fields@) =~= dependency_schema());
    fields
}

/// The value of a dependency in the `j`th column.
pub open spec fn dependency_cell(row: DependencyRow, j: int) -> CellView {
    if j == 0 {
        CellView::Text(Some(row.report@))
    } else if j == 1 {
        CellView::UInt64(Some(row.stream_id))
    } else if j == 2 {
        CellView::UInt64(Some(row.stream_sequence))
    } else if j == 3 {
        CellView::Text(Some(row.predecessor_event_id@))
    } else if j == 4 {
        CellView::Text(Some(row.predecessor_kernel@))
    } else if j == 5 {
        CellView::Micros(Some(row.predecessor_ts_ns))
    } else if j == 6 {
        CellView::Micros(Some(row.predecessor_dur_ns))
    } else if j == 7 {
        CellView::Text(Some(row.successor_event_id@))
    } else if j == 8 {
        CellView::Text(Some(row.successor_kernel@))
    } else if j == 9 {
        CellView::Micros(Some(row.successor_ts_ns))
    } else if j == 10 {
        CellView::Micros(Some(row.successor_dur_ns))
    } else if j == 11 {
        CellView::Micros(Some(row.gap_ns))
    } else {
        CellView::Text(Some(row.dependency_type@))
    }
}

fn make_dependency_cell(row: &DependencyRow, j: usize) -> (cell: Cell)
    requires
        j < 13,
    ensures
        cell@ == dependency_cell(*row, j as int),
{
    match j {
        0 => text_cell(row.report.as_str()),
        1 => Cell::UInt64(Some(row.stream_id)),
        2 => Cell::UInt64(Some(row.stream_sequence)),
        3 => text_cell(row.predecessor_event_id.as_str()),
        4 => text_cell(row.predecessor_kernel.as_str()),
        5 => Cell::Micros(Some(row.predecessor_ts_ns)),
        6 => Cell::Micros(Some(row.predecessor_dur_ns)),
        7 => text_cell(row.successor_event_id.as_str()),
        8 => text_cell(row.successor_kernel.as_str()),
        9 => Cell::Micros(Some(row.successor_ts_ns)),
        10 => Cell::Micros(Some(row.successor_dur_ns)),
        11 => Cell::Micros(Some(row.gap_ns)),
        _ => text_cell(row.dependency_type.as_str()),
    }
}

pub open spec fn dependency_column(rows: Seq<DependencyRow>, j: int) -> Seq<CellView> {
    Seq::new(rows.len(), |i: int| dependency_cell(rows[i], j))
}

/// The dependency table.
pub fn dependency_batch(rows: Vec<DependencyRow>) -> (table: TableData)
    ensures
        field_views(table.fields@) == dependency_schema(),
        table.columns@.len() == dependency_schema().len(),
        forall|j: int|
            0 <= j < table.columns@.len() ==> cell_views((#[trigger] table.columns@[j])@) == dependency_column(
                rows@,
                j,
            ),
{
    let mut columns: Vec<Vec<Cell>> = Vec::new();
    for j in 0..13usize
        invariant
            columns@.len() == j,
            forall|k: int| 0 <= k < j ==> cell_views((#[trigger] columns@[k])@) == dependency_column(rows@, k),
    {
        let mut column: Vec<Cell> = Vec::new();
        for i in 0..rows.len()
            invariant
                j < 13,
                column@.len() == i,
                forall|k: int| 0 <= k < i ==> (#[trigger] column@[k])@ == dependency_cell(rows@[k], j as int),
        {
            column.push(make_dependency_cell(&rows[i], j));
        }
        assert(cell_views(column@) =~= dependency_column(rows@, j as int));
        columns.push(column);
    }
    TableData { fields: dependency_fields(), columns }
}

/// Every value of the dependency table fits its column.
pub proof fn lemma_dependency_cells_fit(row: DependencyRow, j: int)
    requires
        0 <= j < dependency_schema().len(),
    ensures
        fits(dependency_cell(row, j), dependency_schema()[j]),
{
}

} // verus!
