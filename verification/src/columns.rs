//! What each column of the output tables holds.
use crate::event::{arg_views, row_views, Arg, DependencyRow, TraceRow};
use crate::output::{
    cell_views, dependency_cell, dependency_column, dependency_schema, field_views, trace_cell, trace_column,
    trace_schema, Cell, ColumnKind, TableData,
};
use vstd::prelude::*;

verus! {

/// The cell holds this text.
pub open spec fn is_text(cell: Cell, text: Option<Seq<char>>) -> bool {
    match cell {
        Cell::Text(Some(t)) => text == Some(t@),
        Cell::Text(None) => text is None,
        _ => false,
    }
}

/// The cell holds these arguments.
pub open spec fn is_args(cell: Cell, args: Seq<Arg>) -> bool {
    match cell {
        Cell::Args(a) => arg_views(a@) == arg_views(args),
        _ => false,
    }
}

/// The characters of a text that may be missing.
pub open spec fn opt_chars(text: Option<String>) -> Option<Seq<char>> {
    match text {
        Some(t) => Some(t@),
        None => None,
    }
}

/// The table has a column of this name, type and nullability.
pub open spec fn has_column(table: TableData, j: int, name: Seq<char>, kind: ColumnKind, nullable: bool) -> bool {
    &&& 0 <= j < table.fields@.len()
    &&& table.fields@[j].name@ == name
    &&& table.fields@[j].kind == kind
    &&& table.fields@[j].nullable == nullable
}

/// What makes a table of rows.
pub open spec fn tabulates(table: TableData, rows: Seq<TraceRow>) -> bool {
    &&& field_views(table.fields@) == trace_schema()
    &&& table.columns@.len() == trace_schema().len()
    &&& forall|j: int|
        0 <= j < table.columns@.len() ==> cell_views((#[trigger] table.columns@[j])@) == trace_column(row_views(rows), j)
}

proof fn lemma_trace_position(table: TableData, rows: Seq<TraceRow>, i: int, j: int)
    requires
        tabulates(table, rows),
        0 <= i < rows.len(),
        0 <= j < 22,
    ensures
        table.fields@.len() == 22,
        table.columns@.len() == 22,
        table.columns@[j]@.len() == rows.len(),
        table.columns@[j]@[i]@ == trace_cell(rows[i]@, j),
        table.fields@[j]@ == trace_schema()[j],
{
    assert(field_views(table.fields@).len() == 22);
    assert(field_views(table.fields@)[j] == table.fields@[j]@);
    let column = table.columns@[j]@;
    assert(cell_views(column) == trace_column(row_views(rows), j));
    assert(cell_views(column).len() == column.len());
    assert(cell_views(column)[i] == column[i]@);
    assert(trace_column(row_views(rows), j)[i] == trace_cell(rows[i]@, j));
}

proof fn lemma_trace_report(table: TableData, rows: Seq<TraceRow>, i: int)
    requires
        tabulates(table, rows),
        0 <= i < rows.len(),
    ensures
        has_column(table, 0, "report"@, ColumnKind::Utf8, false),
        is_text(table.columns@[0]@[i], Some(rows[i].report@)),
{
    lemma_trace_position(table, rows, i, 0);
}

proof fn lemma_trace_event_type(table: TableData, rows: Seq<TraceRow>, i: int)
    requires
        tabulates(table, rows),
        0 <= i < rows.len(),
    ensures
        has_column(table, 1, "event_type"@, ColumnKind::Utf8, false),
        is_text(table.columns@[1]@[i], Some(rows[i].event_type@)),
{
    lemma_trace_position(table, rows, i, 1);
}

proof fn lemma_trace_cat(table: TableData, rows: Seq<TraceRow>, i: int)
    requires
        tabulates(table, rows),
        0 <= i < rows.len(),
    ensures
        has_column(table, 2, "cat"@, ColumnKind::Utf8, false),
        is_text(table.columns@[2]@[i], Some(rows[i].cat@)),
{
    lemma_trace_position(table, rows, i, 2);
}

proof fn lemma_trace_name(table: TableData, rows: Seq<TraceRow>, i: int)
    requires
        tabulates(table, rows),
        0 <= i < rows.len(),
    ensures
        has_column(table, 3, "name"@, ColumnKind::Utf8, false),
        is_text(table.columns@[3]@[i], Some(rows[i].name@)),
{
    lemma_trace_position(table, rows, i, 3);
}

proof fn lemma_trace_ph(table: TableData, rows: Seq<TraceRow>, i: int)
    requires
        tabulates(table, rows),
        0 <= i < rows.len(),
    ensures
        has_column(table, 4, "ph"@, ColumnKind::Utf8, false),
        is_text(table.columns@[4]@[i], Some(rows[i].ph@)),
{
    lemma_trace_position(table, rows, i, 4);
}

proof fn lemma_trace_ts_us(table: TableData, rows: Seq<TraceRow>, i: int)
    requires
        tabulates(table, rows),
        0 <= i < rows.len(),
    ensures
        has_column(table, 5, "ts_us"@, ColumnKind::Float64, false),
        table.columns@[5]@[i] == Cell::Micros(Some(rows[i].ts_ns)),
{
    lemma_trace_position(table, rows, i, 5);
}

proof fn lemma_trace_dur_us(table: TableData, rows: Seq<TraceRow>, i: int)
    requires
        tabulates(table, rows),
        0 <= i < rows.len(),
    ensures
        has_column(table, 6, "dur_us"@, ColumnKind::Float64, true),
        table.columns@[6]@[i] == Cell::Micros(rows[i].dur_ns),
{
    lemma_trace_position(table, rows, i, 6);
}

proof fn lemma_trace_aligned_ts_us(table: TableData, rows: Seq<TraceRow>, i: int)
    requires
        tabulates(table, rows),
        0 <= i < rows.len(),
    ensures
        has_column(table, 7, "aligned_ts_us"@, ColumnKind::Float64, false),
        table.columns@[7]@[i] == Cell::Micros(Some(rows[i].aligned_ns)),
{
    lemma_trace_position(table, rows, i, 7);
}

proof fn lemma_trace_pid(table: TableData, rows: Seq<TraceRow>, i: int)
    requires
        tabulates(table, rows),
        0 <= i < rows.len(),
    ensures
        has_column(table, 8, "pid"@, ColumnKind::Utf8, false),
        is_text(table.columns@[8]@[i], Some(rows[i].pid@)),
{
    lemma_trace_position(table, rows, i, 8);
}

proof fn lemma_trace_tid(table: TableData, rows: Seq<TraceRow>, i: int)
    requires
        tabulates(table, rows),
        0 <= i < rows.len(),
    ensures
        has_column(table, 9, "tid"@, ColumnKind::Utf8, false),
        is_text(table.columns@[9]@[i], Some(rows[i].tid@)),
{
    lemma_trace_position(table, rows, i, 9);
}

proof fn lemma_trace_args_json(table: TableData, rows: Seq<TraceRow>, i: int)
    requires
        tabulates(table, rows),
        0 <= i < rows.len(),
    ensures
        has_column(table, 10, "args_json"@, ColumnKind::Utf8, false),
        is_args(table.columns@[10]@[i], rows[i].args@),
{
    lemma_trace_position(table, rows, i, 10);
}

proof fn lemma_trace_event_id(table: TableData, rows: Seq<TraceRow>, i: int)
    requires
        tabulates(table, rows),
        0 <= i < rows.len(),
    ensures
        has_column(table, 11, "event_id"@, ColumnKind::Utf8, true),
        is_text(table.columns@[11]@[i], opt_chars(rows[i].event_id)),
{
    lemma_trace_position(table, rows, i, 11);
}

proof fn lemma_trace_launch_event_id(table: TableData, rows: Seq<TraceRow>, i: int)
    requires
        tabulates(table, rows),
        0 <= i < rows.len(),
    ensures
        has_column(table, 12, "launch_event_id"@, ColumnKind::Utf8, true),
        is_text(table.columns@[12]@[i], opt_chars(rows[i].launch_event_id)),
{
    lemma_trace_position(table, rows, i, 12);
}

proof fn lemma_trace_stream_id(table: TableData, rows: Seq<TraceRow>, i: int)
    requires
        tabulates(table, rows),
        0 <= i < rows.len(),
    ensures
        has_column(table, 13, "stream_id"@, ColumnKind::UInt64, true),
        table.columns@[13]@[i] == Cell::UInt64(rows[i].stream_id),
{
    lemma_trace_position(table, rows, i, 13);
}

proof fn lemma_trace_correlation_id(table: TableData, rows: Seq<TraceRow>, i: int)
    requires
        tabulates(table, rows),
        0 <= i < rows.len(),
    ensures
        has_column(table, 14, "correlation_id"@, ColumnKind::UInt32, true),
        table.columns@[14]@[i] == Cell::UInt32(rows[i].correlation_id),
{
    lemma_trace_position(table, rows, i, 14);
}

proof fn lemma_trace_stream_sequence(table: TableData, rows: Seq<TraceRow>, i: int)
    requires
        tabulates(table, rows),
        0 <= i < rows.len(),
    ensures
        has_column(table, 15, "stream_sequence"@, ColumnKind::UInt64, true),
        table.columns@[15]@[i] == Cell::UInt64(rows[i].stream_sequence),
{
    lemma_trace_position(table, rows, i, 15);
}

proof fn lemma_trace_depends_on_event_id(table: TableData, rows: Seq<TraceRow>, i: int)
    requires
        tabulates(table, rows),
        0 <= i < rows.len(),
    ensures
        has_column(table, 16, "depends_on_event_id"@, ColumnKind::Utf8, true),
        is_text(table.columns@[16]@[i], opt_chars(rows[i].depends_on_event_id)),
{
    lemma_trace_position(table, rows, i, 16);
}

proof fn lemma_trace_dependency_type(table: TableData, rows: Seq<TraceRow>, i: int)
    requires
        tabulates(table, rows),
        0 <= i < rows.len(),
    ensures
        has_column(table, 17, "dependency_type"@, ColumnKind::Utf8, true),
        is_text(table.columns@[17]@[i], opt_chars(rows[i].dependency_type)),
{
    lemma_trace_position(table, rows, i, 17);
}

proof fn lemma_trace_device_id(table: TableData, rows: Seq<TraceRow>, i: int)
    requires
        tabulates(table, rows),
        0 <= i < rows.len(),
    ensures
        has_column(table, 18, "device_id"@, ColumnKind::Int64, true),
        table.columns@[18]@[i] == Cell::Int64(rows[i].device_id),
{
    lemma_trace_position(table, rows, i, 18);
}

proof fn lemma_trace_metric_id(table: TableData, rows: Seq<TraceRow>, i: int)
    requires
        tabulates(table, rows),
        0 <= i < rows.len(),
    ensures
        has_column(table, 19, "metric_id"@, ColumnKind::UInt32, true),
        table.columns@[19]@[i] == Cell::UInt32(rows[i].metric_id),
{
    lemma_trace_position(table, rows, i, 19);
}

proof fn lemma_trace_metric_value(table: TableData, rows: Seq<TraceRow>, i: int)
    requires
        tabulates(table, rows),
        0 <= i < rows.len(),
    ensures
        has_column(table, 20, "metric_value"@, ColumnKind::Int64, true),
        table.columns@[20]@[i] == Cell::Int64(rows[i].metric_value),
{
    lemma_trace_position(table, rows, i, 20);
}

proof fn lemma_trace_metric_unit(table: TableData, rows: Seq<TraceRow>, i: int)
    requires
        tabulates(table, rows),
        0 <= i < rows.len(),
    ensures
        has_column(table, 21, "metric_unit"@, ColumnKind::Utf8, true),
        is_text(table.columns@[21]@[i], opt_chars(rows[i].metric_unit)),
{
    lemma_trace_position(table, rows, i, 21);
}

/// Every column of the aligned event table holds, row by row, the value of the row that
/// it is named after; there are no other columns, and every column has a value for
/// every row.
pub proof fn lemma_trace_columns(table: TableData, rows: Seq<TraceRow>, i: int)
    requires
        field_views(table.fields@) == trace_schema(),
        table.columns@.len() == trace_schema().len(),
        forall|j: int|
            0 <= j < table.columns@.len() ==> cell_views((#[trigger] table.columns@[j])@) == trace_column(
                row_views(rows),
                j,
            ),
        0 <= i < rows.len(),
    ensures
        table.fields@.len() == 22,
        table.columns@.len() == 22,
        forall|j: int| 0 <= j < 22 ==> (#[trigger] table.columns@[j])@.len() == rows.len(),
        exists|j: int|
            #[trigger] has_column(table, j, "report"@, ColumnKind::Utf8, false) && is_text(table.columns@[j]@[i], Some(rows[i].report@)),
        exists|j: int|
            #[trigger] has_column(table, j, "event_type"@, ColumnKind::Utf8, false) && is_text(table.columns@[j]@[i], Some(rows[i].event_type@)),
        exists|j: int|
            #[trigger] has_column(table, j, "cat"@, ColumnKind::Utf8, false) && is_text(table.columns@[j]@[i], Some(rows[i].cat@)),
        exists|j: int|
            #[trigger] has_column(table, j, "name"@, ColumnKind::Utf8, false) && is_text(table.columns@[j]@[i], Some(rows[i].name@)),
        exists|j: int|
            #[trigger] has_column(table, j, "ph"@, ColumnKind::Utf8, false) && is_text(table.columns@[j]@[i], Some(rows[i].ph@)),
        exists|j: int|
            #[trigger] has_column(table, j, "ts_us"@, ColumnKind::Float64, false) && table.columns@[j]@[i] == Cell::Micros(Some(rows[i].ts_ns)),
        exists|j: int|
            #[trigger] has_column(table, j, "dur_us"@, ColumnKind::Float64, true) && table.columns@[j]@[i] == Cell::Micros(rows[i].dur_ns),
        exists|j: int|
            #[trigger] has_column(table, j, "aligned_ts_us"@, ColumnKind::Float64, false) && table.columns@[j]@[i] == Cell::Micros(Some(rows[i].aligned_ns)),
        exists|j: int|
            #[trigger] has_column(table, j, "pid"@, ColumnKind::Utf8, false) && is_text(table.columns@[j]@[i], Some(rows[i].pid@)),
        exists|j: int|
            #[trigger] has_column(table, j, "tid"@, ColumnKind::Utf8, false) && is_text(table.columns@[j]@[i], Some(rows[i].tid@)),
        exists|j: int|
            #[trigger] has_column(table, j, "args_json"@, ColumnKind::Utf8, false) && is_args(table.columns@[j]@[i], rows[i].args@),
        exists|j: int|
            #[trigger] has_column(table, j, "event_id"@, ColumnKind::Utf8, true) && is_text(table.columns@[j]@[i], opt_chars(rows[i].event_id)),
        exists|j: int|
            #[trigger] has_column(table, j, "launch_event_id"@, ColumnKind::Utf8, true) && is_text(table.columns@[j]@[i], opt_chars(rows[i].launch_event_id)),
        exists|j: int|
            #[trigger] has_column(table, j, "stream_id"@, ColumnKind::UInt64, true) && table.columns@[j]@[i] == Cell::UInt64(rows[i].stream_id),
        exists|j: int|
            #[trigger] has_column(table, j, "correlation_id"@, ColumnKind::UInt32, true) && table.columns@[j]@[i] == Cell::UInt32(rows[i].correlation_id),
        exists|j: int|
            #[trigger] has_column(table, j, "stream_sequence"@, ColumnKind::UInt64, true) && table.columns@[j]@[i] == Cell::UInt64(rows[i].stream_sequence),
        exists|j: int|
            #[trigger] has_column(table, j, "depends_on_event_id"@, ColumnKind::Utf8, true) && is_text(table.columns@[j]@[i], opt_chars(rows[i].depends_on_event_id)),
        exists|j: int|
            #[trigger] has_column(table, j, "dependency_type"@, ColumnKind::Utf8, true) && is_text(table.columns@[j]@[i], opt_chars(rows[i].dependency_type)),
        exists|j: int|
            #[trigger] has_column(table, j, "device_id"@, ColumnKind::Int64, true) && table.columns@[j]@[i] == Cell::Int64(rows[i].device_id),
        exists|j: int|
            #[trigger] has_column(table, j, "metric_id"@, ColumnKind::UInt32, true) && table.columns@[j]@[i] == Cell::UInt32(rows[i].metric_id),
        exists|j: int|
            #[trigger] has_column(table, j, "metric_value"@, ColumnKind::Int64, true) && table.columns@[j]@[i] == Cell::Int64(rows[i].metric_value),
        exists|j: int|
            #[trigger] has_column(table, j, "metric_unit"@, ColumnKind::Utf8, true) && is_text(table.columns@[j]@[i], opt_chars(rows[i].metric_unit)),
{
    assert(tabulates(table, rows));
    lemma_trace_position(table, rows, i, 0);
    assert forall|j: int| 0 <= j < 22 implies (#[trigger] table.columns@[j])@.len() == rows.len() by {
        lemma_trace_position(table, rows, i, j);
    }
    lemma_trace_report(table, rows, i);
    lemma_trace_event_type(table, rows, i);
    lemma_trace_cat(table, rows, i);
    lemma_trace_name(table, rows, i);
    lemma_trace_ph(table, rows, i);
    lemma_trace_ts_us(table, rows, i);
    lemma_trace_dur_us(table, rows, i);
    lemma_trace_aligned_ts_us(table, rows, i);
    lemma_trace_pid(table, rows, i);
    lemma_trace_tid(table, rows, i);
    lemma_trace_args_json(table, rows, i);
    lemma_trace_event_id(table, rows, i);
    lemma_trace_launch_event_id(table, rows, i);
    lemma_trace_stream_id(table, rows, i);
    lemma_trace_correlation_id(table, rows, i);
    lemma_trace_stream_sequence(table, rows, i);
    lemma_trace_depends_on_event_id(table, rows, i);
    lemma_trace_dependency_type(table, rows, i);
    lemma_trace_device_id(table, rows, i);
    lemma_trace_metric_id(table, rows, i);
    lemma_trace_metric_value(table, rows, i);
    lemma_trace_metric_unit(table, rows, i);
}

/// What makes a table of dependencies.
pub open spec fn tabulates_dependencies(table: TableData, rows: Seq<DependencyRow>) -> bool {
    &&& field_views(table.fields@) == dependency_schema()
    &&& table.columns@.len() == dependency_schema().len()
    &&& forall|j: int|
        0 <= j < table.columns@.len() ==> cell_views((#[trigger] table.columns@[j])@) == dependency_column(rows, j)
}

proof fn lemma_dependency_position(table: TableData, rows: Seq<DependencyRow>, i: int, j: int)
    requires
        tabulates_dependencies(table, rows),
        0 <= i < rows.len(),
        0 <= j < 13,
    ensures
        table.fields@.len() == 13,
        table.columns@.len() == 13,
        table.columns@[j]@.len() == rows.len(),
        table.columns@[j]@[i]@ == dependency_cell(rows[i], j),
        table.fields@[j]@ == dependency_schema()[j],
{
    assert(field_views(table.fields@).len() == 13);
    assert(field_views(table.fields@)[j] == table.fields@[j]@);
    let column = table.columns@[j]@;
    assert(cell_views(column) == dependency_column(rows, j));
    assert(cell_views(column).len() == column.len());
    assert(cell_views(column)[i] == column[i]@);
    assert(dependency_column(rows, j)[i] == dependency_cell(rows[i], j));
}

proof fn lemma_dependency_report(table: TableData, rows: Seq<DependencyRow>, i: int)
    requires
        tabulates_dependencies(table, rows),
        0 <= i < rows.len(),
    ensures
        has_column(table, 0, "report"@, ColumnKind::Utf8, false),
        is_text(table.columns@[0]@[i], Some(rows[i].report@)),
{
    lemma_dependency_position(table, rows, i, 0);
}

proof fn lemma_dependency_stream_id(table: TableData, rows: Seq<DependencyRow>, i: int)
    requires
        tabulates_dependencies(table, rows),
        0 <= i < rows.len(),
    ensures
        has_column(table, 1, "stream_id"@, ColumnKind::UInt64, false),
        table.columns@[1]@[i] == Cell::UInt64(Some(rows[i].stream_id)),
{
    lemma_dependency_position(table, rows, i, 1);
}

proof fn lemma_dependency_stream_sequence(table: TableData, rows: Seq<DependencyRow>, i: int)
    requires
        tabulates_dependencies(table, rows),
        0 <= i < rows.len(),
    ensures
        has_column(table, 2, "stream_sequence"@, ColumnKind::UInt64, false),
        table.columns@[2]@[i] == Cell::UInt64(Some(rows[i].stream_sequence)),
{
    lemma_dependency_position(table, rows, i, 2);
}

proof fn lemma_dependency_predecessor_event_id(table: TableData, rows: Seq<DependencyRow>, i: int)
    requires
        tabulates_dependencies(table, rows),
        0 <= i < rows.len(),
    ensures
        has_column(table, 3, "predecessor_event_id"@, ColumnKind::Utf8, false),
        is_text(table.columns@[3]@[i], Some(rows[i].predecessor_event_id@)),
{
    lemma_dependency_position(table, rows, i, 3);
}

proof fn lemma_dependency_predecessor_kernel(table: TableData, rows: Seq<DependencyRow>, i: int)
    requires
        tabulates_dependencies(table, rows),
        0 <= i < rows.len(),
    ensures
        has_column(table, 4, "predecessor_kernel"@, ColumnKind::Utf8, false),
        is_text(table.columns@[4]@[i], Some(rows[i].predecessor_kernel@)),
{
    lemma_dependency_position(table, rows, i, 4);
}

proof fn lemma_dependency_predecessor_ts_us(table: TableData, rows: Seq<DependencyRow>, i: int)
    requires
        tabulates_dependencies(table, rows),
        0 <= i < rows.len(),
    ensures
        has_column(table, 5, "predecessor_ts_us"@, ColumnKind::Float64, false),
        table.columns@[5]@[i] == Cell::Micros(Some(rows[i].predecessor_ts_ns)),
{
    lemma_dependency_position(table, rows, i, 5);
}

proof fn lemma_dependency_predecessor_dur_us(table: TableData, rows: Seq<DependencyRow>, i: int)
    requires
        tabulates_dependencies(table, rows),
        0 <= i < rows.len(),
    ensures
        has_column(table, 6, "predecessor_dur_us"@, ColumnKind::Float64, false),
        table.columns@[6]@[i] == Cell::Micros(Some(rows[i].predecessor_dur_ns)),
{
    lemma_dependency_position(table, rows, i, 6);
}

proof fn lemma_dependency_successor_event_id(table: TableData, rows: Seq<DependencyRow>, i: int)
    requires
        tabulates_dependencies(table, rows),
        0 <= i < rows.len(),
    ensures
        has_column(table, 7, "successor_event_id"@, ColumnKind::Utf8, false),
        is_text(table.columns@[7]@[i], Some(rows[i].successor_event_id@)),
{
    lemma_dependency_position(table, rows, i, 7);
}

proof fn lemma_dependency_successor_kernel(table: TableData, rows: Seq<DependencyRow>, i: int)
    requires
        tabulates_dependencies(table, rows),
        0 <= i < rows.len(),
    ensures
        has_column(table, 8, "successor_kernel"@, ColumnKind::Utf8, false),
        is_text(table.columns@[8]@[i], Some(rows[i].successor_kernel@)),
{
    lemma_dependency_position(table, rows, i, 8);
}

proof fn lemma_dependency_successor_ts_us(table: TableData, rows: Seq<DependencyRow>, i: int)
    requires
        tabulates_dependencies(table, rows),
        0 <= i < rows.len(),
    ensures
        has_column(table, 9, "successor_ts_us"@, ColumnKind::Float64, false),
        table.columns@[9]@[i] == Cell::Micros(Some(rows[i].successor_ts_ns)),
{
    lemma_dependency_position(table, rows, i, 9);
}

proof fn lemma_dependency_successor_dur_us(table: TableData, rows: Seq<DependencyRow>, i: int)
    requires
        tabulates_dependencies(table, rows),
        0 <= i < rows.len(),
    ensures
        has_column(table, 10, "successor_dur_us"@, ColumnKind::Float64, false),
        table.columns@[10]@[i] == Cell::Micros(Some(rows[i].successor_dur_ns)),
{
    lemma_dependency_position(table, rows, i, 10);
}

proof fn lemma_dependency_gap_us(table: TableData, rows: Seq<DependencyRow>, i: int)
    requires
        tabulates_dependencies(table, rows),
        0 <= i < rows.len(),
    ensures
        has_column(table, 11, "gap_us"@, ColumnKind::Float64, false),
        table.columns@[11]@[i] == Cell::Micros(Some(rows[i].gap_ns)),
{
    lemma_dependency_position(table, rows, i, 11);
}

proof fn lemma_dependency_dependency_type(table: TableData, rows: Seq<DependencyRow>, i: int)
    requires
        tabulates_dependencies(table, rows),
        0 <= i < rows.len(),
    ensures
        has_column(table, 12, "dependency_type"@, ColumnKind::Utf8, false),
        is_text(table.columns@[12]@[i], Some(rows[i].dependency_type@)),
{
    lemma_dependency_position(table, rows, i, 12);
}

/// Every column of the dependency table holds, row by row, the value of the dependency
/// that it is named after; there are no other columns.
pub proof fn lemma_dependency_columns(table: TableData, rows: Seq<DependencyRow>, i: int)
    requires
        field_views(table.fields@) == dependency_schema(),
        table.columns@.len() == dependency_schema().len(),
        forall|j: int|
            0 <= j < table.columns@.len() ==> cell_views((#[trigger] table.columns@[j])@) == dependency_column(rows, j),
        0 <= i < rows.len(),
    ensures
        table.fields@.len() == 13,
        table.columns@.len() == 13,
        forall|j: int| 0 <= j < 13 ==> (#[trigger] table.columns@[j])@.len() == rows.len(),
        exists|j: int|
            #[trigger] has_column(table, j, "report"@, ColumnKind::Utf8, false) && is_text(table.columns@[j]@[i], Some(rows[i].report@)),
        exists|j: int|
            #[trigger] has_column(table, j, "stream_id"@, ColumnKind::UInt64, false) && table.columns@[j]@[i] == Cell::UInt64(Some(rows[i].stream_id)),
        exists|j: int|
            #[trigger] has_column(table, j, "stream_sequence"@, ColumnKind::UInt64, false) && table.columns@[j]@[i] == Cell::UInt64(Some(rows[i].stream_sequence)),
        exists|j: int|
            #[trigger] has_column(table, j, "predecessor_event_id"@, ColumnKind::Utf8, false) && is_text(table.columns@[j]@[i], Some(rows[i].predecessor_event_id@)),
        exists|j: int|
            #[trigger] has_column(table, j, "predecessor_kernel"@, ColumnKind::Utf8, false) && is_text(table.columns@[j]@[i], Some(rows[i].predecessor_kernel@)),
        exists|j: int|
            #[trigger] has_column(table, j, "predecessor_ts_us"@, ColumnKind::Float64, false) && table.columns@[j]@[i] == Cell::Micros(Some(rows[i].predecessor_ts_ns)),
        exists|j: int|
            #[trigger] has_column(table, j, "predecessor_dur_us"@, ColumnKind::Float64, false) && table.columns@[j]@[i] == Cell::Micros(Some(rows[i].predecessor_dur_ns)),
        exists|j: int|
            #[trigger] has_column(table, j, "successor_event_id"@, ColumnKind::Utf8, false) && is_text(table.columns@[j]@[i], Some(rows[i].successor_event_id@)),
        exists|j: int|
            #[trigger] has_column(table, j, "successor_kernel"@, ColumnKind::Utf8, false) && is_text(table.columns@[j]@[i], Some(rows[i].successor_kernel@)),
        exists|j: int|
            #[trigger] has_column(table, j, "successor_ts_us"@, ColumnKind::Float64, false) && table.columns@[j]@[i] == Cell::Micros(Some(rows[i].successor_ts_ns)),
        exists|j: int|
            #[trigger] has_column(table, j, "successor_dur_us"@, ColumnKind::Float64, false) && table.columns@[j]@[i] == Cell::Micros(Some(rows[i].successor_dur_ns)),
        exists|j: int|
            #[trigger] has_column(table, j, "gap_us"@, ColumnKind::Float64, false) && table.columns@[j]@[i] == Cell::Micros(Some(rows[i].gap_ns)),
        exists|j: int|
            #[trigger] has_column(table, j, "dependency_type"@, ColumnKind::Utf8, false) && is_text(table.columns@[j]@[i], Some(rows[i].dependency_type@)),
{
    assert(tabulates_dependencies(table, rows));
    lemma_dependency_position(table, rows, i, 0);
    assert forall|j: int| 0 <= j < 13 implies (#[trigger] table.columns@[j])@.len() == rows.len() by {
        lemma_dependency_position(table, rows, i, j);
    }
    lemma_dependency_report(table, rows, i);
    lemma_dependency_stream_id(table, rows, i);
    lemma_dependency_stream_sequence(table, rows, i);
    lemma_dependency_predecessor_event_id(table, rows, i);
    lemma_dependency_predecessor_kernel(table, rows, i);
    lemma_dependency_predecessor_ts_us(table, rows, i);
    lemma_dependency_predecessor_dur_us(table, rows, i);
    lemma_dependency_successor_event_id(table, rows, i);
    lemma_dependency_successor_kernel(table, rows, i);
    lemma_dependency_successor_ts_us(table, rows, i);
    lemma_dependency_successor_dur_us(table, rows, i);
    lemma_dependency_gap_us(table, rows, i);
    lemma_dependency_dependency_type(table, rows, i);
}

/// The fields of a table without rows are the same.
pub proof fn lemma_table_fields(table: TableData, other: TableData)
    requires
        field_views(table.fields@) == dependency_schema(),
        field_views(other.fields@) == trace_schema(),
    ensures
        has_column(table, 0, "report"@, ColumnKind::Utf8, false),
        has_column(table, 1, "stream_id"@, ColumnKind::UInt64, false),
        has_column(table, 2, "stream_sequence"@, ColumnKind::UInt64, false),
        has_column(table, 3, "predecessor_event_id"@, ColumnKind::Utf8, false),
        has_column(table, 4, "predecessor_kernel"@, ColumnKind::Utf8, false),
        has_column(table, 5, "predecessor_ts_us"@, ColumnKind::Float64, false),
        has_column(table, 6, "predecessor_dur_us"@, ColumnKind::Float64, false),
        has_column(table, 7, "successor_event_id"@, ColumnKind::Utf8, false),
        has_column(table, 8, "successor_kernel"@, ColumnKind::Utf8, false),
        has_column(table, 9, "successor_ts_us"@, ColumnKind::Float64, false),
        has_column(table, 10, "successor_dur_us"@, ColumnKind::Float64, false),
        has_column(table, 11, "gap_us"@, ColumnKind::Float64, false),
        has_column(table, 12, "dependency_type"@, ColumnKind::Utf8, false),
        has_column(other, 0, "report"@, ColumnKind::Utf8, false),
        has_column(other, 1, "event_type"@, ColumnKind::Utf8, false),
        has_column(other, 2, "cat"@, ColumnKind::Utf8, false),
        has_column(other, 3, "name"@, ColumnKind::Utf8, false),
        has_column(other, 4, "ph"@, ColumnKind::Utf8, false),
        has_column(other, 5, "ts_us"@, ColumnKind::Float64, false),
        has_column(other, 6, "dur_us"@, ColumnKind::Float64, true),
        has_column(other, 7, "aligned_ts_us"@, ColumnKind::Float64, false),
        has_column(other, 8, "pid"@, ColumnKind::Utf8, false),
        has_column(other, 9, "tid"@, ColumnKind::Utf8, false),
        has_column(other, 10, "args_json"@, ColumnKind::Utf8, false),
        has_column(other, 11, "event_id"@, ColumnKind::Utf8, true),
        has_column(other, 12, "launch_event_id"@, ColumnKind::Utf8, true),
        has_column(other, 13, "stream_id"@, ColumnKind::UInt64, true),
        has_column(other, 14, "correlation_id"@, ColumnKind::UInt32, true),
        has_column(other, 15, "stream_sequence"@, ColumnKind::UInt64, true),
        has_column(other, 16, "depends_on_event_id"@, ColumnKind::Utf8, true),
        has_column(other, 17, "dependency_type"@, ColumnKind::Utf8, true),
        has_column(other, 18, "device_id"@, ColumnKind::Int64, true),
        has_column(other, 19, "metric_id"@, ColumnKind::UInt32, true),
        has_column(other, 20, "metric_value"@, ColumnKind::Int64, true),
        has_column(other, 21, "metric_unit"@, ColumnKind::Utf8, true),
{
    assert(field_views(table.fields@).len() == 13);
    assert(field_views(other.fields@).len() == 22);
    assert forall|j: int| 0 <= j < 13 implies #[trigger] table.fields@[j]@ == dependency_schema()[j] by {
        assert(field_views(table.fields@)[j] == table.fields@[j]@);
    }
    assert forall|j: int| 0 <= j < 22 implies #[trigger] other.fields@[j]@ == trace_schema()[j] by {
        assert(field_views(other.fields@)[j] == other.fields@[j]@);
    }
    assert(table.fields@[0]@ == dependency_schema()[0]);
    assert(table.fields@[1]@ == dependency_schema()[1]);
    assert(table.fields@[2]@ == dependency_schema()[2]);
    assert(table.fields@[3]@ == dependency_schema()[3]);
    assert(table.fields@[4]@ == dependency_schema()[4]);
    assert(table.fields@[5]@ == dependency_schema()[5]);
    assert(table.fields@[6]@ == dependency_schema()[6]);
    assert(table.fields@[7]@ == dependency_schema()[7]);
    assert(table.fields@[8]@ == dependency_schema()[8]);
    assert(table.fields@[9]@ == dependency_schema()[9]);
    assert(table.fields@[10]@ == dependency_schema()[10]);
    assert(table.fields@[11]@ == dependency_schema()[11]);
    assert(table.fields@[12]@ == dependency_schema()[12]);
    assert(other.fields@[0]@ == trace_schema()[0]);
    assert(other.fields@[1]@ == trace_schema()[1]);
    assert(other.fields@[2]@ == trace_schema()[2]);
    assert(other.fields@[3]@ == trace_schema()[3]);
    assert(other.fields@[4]@ == trace_schema()[4]);
    assert(other.fields@[5]@ == trace_schema()[5]);
    assert(other.fields@[6]@ == trace_schema()[6]);
    assert(other.fields@[7]@ == trace_schema()[7]);
    assert(other.fields@[8]@ == trace_schema()[8]);
    assert(other.fields@[9]@ == trace_schema()[9]);
    assert(other.fields@[10]@ == trace_schema()[10]);
    assert(other.fields@[11]@ == trace_schema()[11]);
    assert(other.fields@[12]@ == trace_schema()[12]);
    assert(other.fields@[13]@ == trace_schema()[13]);
    assert(other.fields@[14]@ == trace_schema()[14]);
    assert(other.fields@[15]@ == trace_schema()[15]);
    assert(other.fields@[16]@ == trace_schema()[16]);
    assert(other.fields@[17]@ == trace_schema()[17]);
    assert(other.fields@[18]@ == trace_schema()[18]);
    assert(other.fields@[19]@ == trace_schema()[19]);
    assert(other.fields@[20]@ == trace_schema()[20]);
    assert(other.fields@[21]@ == trace_schema()[21]);
}

} // verus!
