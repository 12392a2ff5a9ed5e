use datafusion::arrow::array::{ArrayRef, Int64Array, StringArray};
use datafusion::arrow::record_batch::RecordBatch;
use datafusion::prelude::SessionContext;
use nsys2perfetto::batches::Batch;
use nsys2perfetto::input::{load_kernels, load_memcpys, load_nvtx, load_runtime};
use nsys2perfetto::tables::Table;
use std::sync::Arc;

fn numbers(list: &[i64]) -> ArrayRef {
    Arc::new(Int64Array::from(list.to_vec()))
}

fn maybe_numbers(list: &[Option<i64>]) -> ArrayRef {
    Arc::new(Int64Array::from(list.to_vec()))
}

fn maybe_texts(list: &[Option<&str>]) -> ArrayRef {
    Arc::new(StringArray::from(list.to_vec()))
}

/// What the query of a table gives when the tables hold these columns.
fn queried(table: Table, tables: Vec<(Table, Vec<(&str, ArrayRef)>)>) -> Vec<Batch> {
    let runtime = tokio::runtime::Runtime::new().unwrap();
    runtime.block_on(async {
        let ctx = SessionContext::new();
        for (table, columns) in tables {
            let columns: Vec<(&str, ArrayRef, bool)> =
                columns.into_iter().map(|(name, column)| (name, column, true)).collect();
            ctx.register_batch(table.name(), RecordBatch::try_from_iter_with_nullable(columns).unwrap()).unwrap();
        }
        let query = table.query().unwrap();
        let batches = ctx.sql(query).await.unwrap().collect().await.unwrap();
        batches.into_iter().map(|batch| Batch { batch }).collect()
    })
}

fn strings() -> (Table, Vec<(&'static str, ArrayRef)>) {
    (Table::Strings, vec![("id", numbers(&[1])), ("value", maybe_texts(&[Some("gemm")]))])
}

#[test]
fn strings_are_not_queried_on_their_own() {
    assert_eq!(Table::Strings.query(), None);
}

#[test]
fn kernels_without_a_string_are_named_by_number() {
    let mut columns = vec![("start", numbers(&[20, 10])), ("end", numbers(&[25, 15])), ("shortName", numbers(&[1, 9]))];
    for name in [
        "deviceId",
        "contextId",
        "streamId",
        "correlationId",
        "globalPid",
        "gridX",
        "gridY",
        "gridZ",
        "blockX",
        "blockY",
        "blockZ",
    ] {
        columns.push((name, numbers(&[3, 4])));
    }
    let kernels = load_kernels(&queried(Table::Kernels, vec![(Table::Kernels, columns), strings()])).unwrap();
    let read: Vec<(i64, i64, i64, &str)> =
        kernels.iter().map(|k| (k.start, k.end, k.device, k.name.as_str())).collect();
    assert_eq!(read, vec![(10, 15, 4, "kernel_9"), (20, 25, 3, "gemm")]);
}

#[test]
fn calls_without_a_string_are_named_by_number() {
    let columns = vec![
        ("start", numbers(&[20, 10])),
        ("end", numbers(&[25, 15])),
        ("globalTid", numbers(&[3, 4])),
        ("correlationId", numbers(&[5, 6])),
        ("nameId", numbers(&[9, 1])),
    ];
    let calls = load_runtime(&queried(Table::Runtime, vec![(Table::Runtime, columns), strings()])).unwrap();
    let read: Vec<(i64, i64, &str)> = calls.iter().map(|c| (c.start, c.correlation, c.name.as_str())).collect();
    assert_eq!(read, vec![(10, 6, "gemm"), (20, 5, "cuda_api_9")]);
}

#[test]
fn only_ended_push_pop_ranges_are_read() {
    let columns = vec![
        ("start", numbers(&[50, 40, 30, 20, 10])),
        ("end", maybe_numbers(&[Some(55), None, Some(35), Some(25), Some(15)])),
        ("text", maybe_texts(&[Some("own"), Some("open"), Some("mark"), None, None])),
        ("textId", maybe_numbers(&[Some(1), None, None, Some(1), None])),
        ("globalTid", numbers(&[7, 7, 7, 7, 7])),
        ("eventType", numbers(&[59, 59, 34, 59, 59])),
    ];
    let ranges = load_nvtx(&queried(Table::Nvtx, vec![(Table::Nvtx, columns), strings()])).unwrap();
    let read: Vec<(i64, i64, &str)> = ranges.iter().map(|r| (r.start, r.end, r.name.as_str())).collect();
    assert_eq!(read, vec![(10, 15, "NVTX"), (20, 25, "gemm"), (50, 55, "own")]);
}

#[test]
fn copies_that_lack_a_device_are_read_with_defaults() {
    let mut columns = vec![
        ("start", numbers(&[30, 20, 10])),
        ("end", numbers(&[35, 25, 15])),
        ("copyKind", numbers(&[1, 4, 8])),
        ("virtualAddress", maybe_numbers(&[None, None, Some(16)])),
        ("copyCount", maybe_numbers(&[None, None, Some(3)])),
    ];
    for name in ["deviceId", "contextId", "streamId", "correlationId", "globalPid", "bytes", "srcKind", "dstKind"] {
        columns.push((name, numbers(&[5, 5, 5])));
    }
    for name in ["srcDeviceId", "srcContextId", "dstDeviceId", "dstContextId", "graphNodeId"] {
        columns.push((name, maybe_numbers(&[None, None, Some(2)])));
    }
    let copies = load_memcpys(&queried(Table::Memcpy, vec![(Table::Memcpy, columns)])).unwrap();
    let read: Vec<(i64, i64, i64, i64, &str, u64)> = copies
        .iter()
        .map(|c| (c.start, c.copy_kind, c.src_device, c.graph_node, c.virtual_address.as_str(), c.copy_count))
        .collect();
    assert_eq!(read, vec![(10, 8, 2, 2, "16", 3), (30, 1, -1, -1, "0", 1)]);
}
