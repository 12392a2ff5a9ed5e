use datafusion::arrow::array::{ArrayRef, Float64Array, Int64Array, StringArray, StringViewArray};
use datafusion::arrow::datatypes::{Field, Schema};
use datafusion::arrow::record_batch::RecordBatch;
use nsys2perfetto::batches::{i64_col, string_at, Batch, ColumnProblem};
use nsys2perfetto::event::{Arg, ArgValue, DependencyRow, TraceRow};
use nsys2perfetto::input::{load_kernels, load_memcpys, load_nvtx, load_runtime};
use nsys2perfetto::json::JsonArrayWriter;
use nsys2perfetto::model::GLOBAL_ID_RADIX;
use nsys2perfetto::output::{dependency_batch, trace_rows_batch, Cell, ColumnKind};
use nsys2perfetto::tables::{input_tables, Table, TableAvailability};
use std::sync::Arc;

fn batch(columns: Vec<(&str, ArrayRef)>) -> Batch {
    let fields: Vec<Field> = columns
        .iter()
        .map(|(name, array)| Field::new(*name, array.data_type().clone(), true))
        .collect();
    let arrays: Vec<ArrayRef> = columns.into_iter().map(|(_, array)| array).collect();
    Batch { batch: RecordBatch::try_new(Arc::new(Schema::new(fields)), arrays).unwrap() }
}

fn ints(values: &[i64]) -> ArrayRef {
    Arc::new(Int64Array::from(values.to_vec()))
}

fn texts(values: &[&str]) -> ArrayRef {
    Arc::new(StringArray::from(values.to_vec()))
}

fn views(values: &[&str]) -> ArrayRef {
    Arc::new(StringViewArray::from(values.to_vec()))
}

fn kernel_batch(starts: &[i64], names: ArrayRef) -> Batch {
    let same = |n: i64| -> ArrayRef { ints(&vec![n; starts.len()]) };
    batch(vec![
        ("start_ns", ints(starts)),
        ("end_ns", same(90)),
        ("device_id", same(1)),
        ("context_id", same(2)),
        ("stream_id", same(3)),
        ("correlation_id", same(4)),
        ("global_pid", same(5)),
        ("kernel_name", names),
        ("grid_x", same(6)),
        ("grid_y", same(7)),
        ("grid_z", same(8)),
        ("block_x", same(9)),
        ("block_y", same(10)),
        ("block_z", same(11)),
    ])
}

#[test]
fn integer_columns_are_read_whole() {
    let b = batch(vec![("n", ints(&[3, -4, 5])), ("t", texts(&["a", "b", "c"]))]);
    assert_eq!(i64_col(&b, "n").unwrap(), vec![3, -4, 5]);
    let error = i64_col(&b, "t").unwrap_err();
    assert_eq!(error.problem, ColumnProblem::NotInt64);
    assert_eq!(error.message(), "column t is not Int64");
    let error = i64_col(&b, "missing").unwrap_err();
    assert_eq!(error.problem, ColumnProblem::Missing);
    assert_eq!(error.message(), "missing column missing");
}

#[test]
fn text_columns_have_two_layouts() {
    let b = batch(vec![
        ("plain", texts(&["a", "grün"])),
        ("view", views(&["c", "a string that is longer than twelve bytes"])),
        ("number", ints(&[1, 2])),
        ("float", Arc::new(Float64Array::from(vec![1.0, 2.0]))),
    ]);
    assert_eq!(string_at(&b, "plain", 1).unwrap(), "grün");
    assert_eq!(string_at(&b, "view", 1).unwrap(), "a string that is longer than twelve bytes");
    let error = string_at(&b, "number", 0).unwrap_err();
    assert_eq!(error.problem, ColumnProblem::NotText);
    assert_eq!(error.message(), "column number is neither Utf8 nor Utf8View");
    assert_eq!(string_at(&b, "none", 0).unwrap_err().problem, ColumnProblem::Missing);
    assert_eq!(i64_col(&b, "float").unwrap_err().problem, ColumnProblem::NotInt64);
}

#[test]
fn kernels_are_read_batch_by_batch() {
    let kernels = load_kernels(&vec![
        kernel_batch(&[10, 20], texts(&["a", "b"])),
        kernel_batch(&[], texts(&[])),
        kernel_batch(&[30], views(&["c"])),
    ])
    .unwrap();
    let read: Vec<(i64, &str)> = kernels.iter().map(|k| (k.start, k.name.as_str())).collect();
    assert_eq!(read, vec![(10, "a"), (20, "b"), (30, "c")]);
    let k = &kernels[2];
    assert_eq!((k.end, k.device, k.context, k.stream), (90, 1, 2, 3));
    assert_eq!((k.correlation, k.global_pid), (4, 5));
    assert_eq!((k.grid, k.block), ([6, 7, 8], [9, 10, 11]));
    assert_eq!((k.sequence, k.launch_call), (0, None));
    assert!(k.event_id.is_empty() && k.nvtx_regions.is_empty());
}

#[test]
fn the_first_unreadable_column_is_reported() {
    let wrong_name = load_kernels(&vec![kernel_batch(&[10], ints(&[1]))]).unwrap_err();
    assert_eq!(wrong_name.message(), "column kernel_name is neither Utf8 nor Utf8View");
    assert!(load_kernels(&vec![kernel_batch(&[], ints(&[]))]).unwrap().is_empty());
    let missing = load_kernels(&vec![
        kernel_batch(&[10], texts(&["a"])),
        batch(vec![("start_ns", ints(&[1])), ("device_id", texts(&["x"]))]),
    ])
    .unwrap_err();
    assert_eq!(missing.message(), "missing column end_ns");
}

#[test]
fn ranges_and_calls_are_read() {
    let ranges = load_nvtx(&vec![batch(vec![
        ("start_ns", ints(&[1])),
        ("end_ns", ints(&[9])),
        ("nvtx_name", texts(&["step"])),
        ("global_tid", ints(&[42 * GLOBAL_ID_RADIX + 7])),
    ])])
    .unwrap();
    assert_eq!((ranges[0].start, ranges[0].end, ranges[0].name.as_str()), (1, 9, "step"));
    assert_eq!((ranges[0].pid, ranges[0].tid), (42, 7));
    assert!(ranges[0].kernel_bounds.is_empty());
    let calls = load_runtime(&vec![batch(vec![
        ("start_ns", ints(&[1])),
        ("end_ns", ints(&[9])),
        ("global_tid", ints(&[77])),
        ("correlation_id", ints(&[5])),
        ("runtime_name", views(&["cudaMalloc"])),
    ])])
    .unwrap();
    assert_eq!((calls[0].start, calls[0].end, calls[0].global_tid), (1, 9, 77));
    assert_eq!((calls[0].correlation, calls[0].name.as_str()), (5, "cudaMalloc"));
    assert_eq!(calls[0].event_id, None);
}

#[test]
fn copies_are_read() {
    let names = [
        "start_ns", "end_ns", "device_id", "context_id", "stream_id", "correlation_id", "global_pid", "bytes",
        "copy_kind", "src_kind", "dst_kind", "src_device_id", "src_context_id", "dst_device_id", "dst_context_id",
        "graph_node_id", "copy_count",
    ];
    let mut columns: Vec<(&str, ArrayRef)> = Vec::new();
    for (i, name) in names.iter().enumerate() {
        columns.push((*name, ints(&[i as i64 - 8])));
    }
    columns.push(("virtual_address", texts(&["0x10"])));
    let copies = load_memcpys(&vec![batch(columns)]).unwrap();
    let c = &copies[0];
    assert_eq!((c.start, c.end, c.device, c.context), (-8, -7, -6, -5));
    assert_eq!((c.stream, c.correlation, c.global_pid), (-4, -3, -2));
    assert_eq!(c.bytes, u64::MAX);
    assert_eq!((c.copy_kind, c.src_kind, c.dst_kind), (0, 1, 2));
    assert_eq!((c.src_device, c.src_context, c.dst_device, c.dst_context), (3, 4, 5, 6));
    assert_eq!((c.graph_node, c.copy_count), (7, 8));
    assert_eq!((c.virtual_address.as_str(), c.launch_call), ("0x10", None));
}

#[test]
fn tables_have_names_files_and_warnings() {
    let tables = input_tables();
    let names: Vec<(&str, &str)> = tables.iter().map(|t| (t.name(), t.file())).collect();
    assert_eq!(
        names,
        vec![
            ("kernels", "CUPTI_ACTIVITY_KIND_KERNEL.parquet"),
            ("runtime", "CUPTI_ACTIVITY_KIND_RUNTIME.parquet"),
            ("strings", "StringIds.parquet"),
            ("memcpy", "CUPTI_ACTIVITY_KIND_MEMCPY.parquet"),
            ("nvtx", "NVTX_EVENTS.parquet"),
        ]
    );
    assert_eq!(Table::Memcpy.absence_warning(), None);
    assert_eq!(
        Table::Kernels.absence_warning(),
        Some("warning: CUPTI_ACTIVITY_KIND_KERNEL.parquet is absent")
    );
    let mut found = TableAvailability::none();
    found.mark(Table::Nvtx);
    assert_eq!(
        found,
        TableAvailability { kernels: false, runtime: false, memcpy: false, nvtx: true, strings: false }
    );
}

#[test]
fn events_are_framed_as_one_array() {
    let (mut writer, opening) = JsonArrayWriter::create(Some("json"));
    assert!(!writer.gzip);
    let mut out = String::from(opening);
    for event in ["{}", "{\"a\":1}", "{}"] {
        out.push_str(writer.event());
        out.push_str(event);
    }
    out.push_str(writer.finish());
    assert_eq!(out, "[{},{\"a\":1},{}]\n");
    let (writer, opening) = JsonArrayWriter::create(Some("gz"));
    assert!(writer.gzip);
    assert_eq!(format!("{opening}{}", writer.finish()), "[]\n");
    assert!(!JsonArrayWriter::create(None).0.gzip);
}

#[test]
fn rows_become_columns() {
    let row = TraceRow {
        report: "rep".into(),
        event_type: "cuda_kernel".into(),
        cat: "cuda",
        name: "gemm".into(),
        ph: "X",
        ts_ns: 1500,
        dur_ns: None,
        aligned_ns: -20,
        pid: "p".into(),
        tid: "t".into(),
        args: vec![Arg { key: "a", value: ArgValue::Int(1) }],
        event_id: Some("e".into()),
        launch_event_id: None,
        stream_id: Some(7),
        correlation_id: Some(8),
        stream_sequence: Some(9),
        depends_on_event_id: None,
        dependency_type: None,
        device_id: None,
        metric_id: None,
        metric_value: None,
        metric_unit: None,
    };
    let table = trace_rows_batch(vec![row]);
    assert_eq!((table.fields.len(), table.columns.len()), (22, 22));
    let names: Vec<&str> = table.fields.iter().map(|f| f.name).collect();
    assert_eq!(names[..8], ["report", "event_type", "cat", "name", "ph", "ts_us", "dur_us", "aligned_ts_us"]);
    assert_eq!(names[18..], ["device_id", "metric_id", "metric_value", "metric_unit"]);
    assert_eq!((table.fields[5].kind, table.fields[5].nullable), (ColumnKind::Float64, false));
    assert_eq!((table.fields[14].kind, table.fields[14].nullable), (ColumnKind::UInt32, true));
    assert!(matches!(&table.columns[2][0], Cell::Text(Some(t)) if t == "cuda"));
    assert!(matches!(&table.columns[5][0], Cell::Micros(Some(1500))));
    assert!(matches!(&table.columns[6][0], Cell::Micros(None)));
    assert!(matches!(&table.columns[10][0], Cell::Args(a) if a.len() == 1));
    assert!(matches!(&table.columns[13][0], Cell::UInt64(Some(7))));
    assert!(matches!(&table.columns[21][0], Cell::Text(None)));
}

#[test]
fn the_dependency_table_has_a_schema_without_rows() {
    let table = dependency_batch(Vec::new());
    assert_eq!((table.fields.len(), table.columns.len()), (13, 13));
    assert!(table.columns.iter().all(|column| column.is_empty()));
    assert_eq!((table.fields[11].name, table.fields[11].kind), ("gap_us", ColumnKind::Float64));
    let table = dependency_batch(vec![DependencyRow {
        report: "rep".into(),
        stream_id: 1,
        stream_sequence: 2,
        predecessor_event_id: "a".into(),
        predecessor_kernel: "b".into(),
        predecessor_ts_ns: 3,
        predecessor_dur_ns: 4,
        successor_event_id: "c".into(),
        successor_kernel: "d".into(),
        successor_ts_ns: 5,
        successor_dur_ns: 6,
        gap_ns: 7,
        dependency_type: "e".into(),
    }]);
    assert!(matches!(&table.columns[11][0], Cell::Micros(Some(7))));
    assert!(matches!(&table.columns[12][0], Cell::Text(Some(t)) if t == "e"));
}
