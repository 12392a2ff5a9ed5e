//! Reads the records of a trace from the batches that hold its tables.
use crate::batches::{
    i64_col, int_at, int_problem, num_rows, row_count, string_at, text_at, text_problem, Batch, ColumnError,
    ColumnProblem,
};
use crate::laws::fresh;
use crate::model::{pid_of, source_pid, source_tid, tid_of, Kernel, Memcpy, NvtxRange, RuntimeCall};
use crate::trace::Recorded;
use std::collections::BTreeMap;
use vstd::prelude::*;

verus! {

/// The first column of a list that cannot be read as integers.
pub open spec fn first_int_problem(batch: Batch, names: Seq<Seq<char>>) -> Option<(Seq<char>, ColumnProblem)>
    decreases names.len(),
{
    if names.len() == 0 {
        None
    } else {
        match first_int_problem(batch, names.drop_last()) {
            Some(found) => Some(found),
            None => match int_problem(batch, names.last()) {
                Some(problem) => Some((names.last(), problem)),
                None => None,
            },
        }
    }
}

/// What stops a batch from being read: an integer column, or else the text column of
/// a batch that has rows.
pub open spec fn batch_problem(batch: Batch, ints: Seq<Seq<char>>, text: Seq<char>) -> Option<
    (Seq<char>, ColumnProblem),
> {
    match first_int_problem(batch, ints) {
        Some(found) => Some(found),
        None => if row_count(batch) == 0 {
            None
        } else {
            match text_problem(batch, text) {
                Some(problem) => Some((text, problem)),
                None => None,
            }
        },
    }
}

/// The first batch that cannot be read.
pub open spec fn first_problem(batches: Seq<Batch>, ints: Seq<Seq<char>>, text: Seq<char>) -> Option<
    (Seq<char>, ColumnProblem),
>
    decreases batches.len(),
{
    if batches.len() == 0 {
        None
    } else {
        match first_problem(batches.drop_last(), ints, text) {
            Some(found) => Some(found),
            None => batch_problem(batches.last(), ints, text),
        }
    }
}

/// The number of rows in the first `n` batches.
pub open spec fn rows_before(batches: Seq<Batch>, n: int) -> nat
    decreases n,
{
    if n <= 0 {
        0
    } else {
        rows_before(batches, n - 1) + row_count(batches[n - 1])
    }
}

pub open spec fn names_of(names: Seq<&'static str>) -> Seq<Seq<char>> {
    Seq::new(names.len(), |i: int| names[i]@)
}

/// The column `names[j]` of a batch has been read as `ints[j]`.
pub open spec fn ints_read(batch: Batch, names: Seq<&'static str>, ints: Seq<Vec<i64>>) -> bool {
    &&& ints.len() == names.len()
    &&& forall|j: int|
        0 <= j < ints.len() ==> {
            &&& (#[trigger] ints[j])@.len() == row_count(batch)
            &&& forall|row: int| 0 <= row < ints[j]@.len() ==> #[trigger] ints[j]@[row] == int_at(batch, names[j]@, row)
        }
}

/// Reads integer columns in turn.
fn read_ints(batch: &Batch, names: &Vec<&'static str>) -> (ints: Result<Vec<Vec<i64>>, ColumnError>)
    ensures
        match ints {
            Ok(v) => first_int_problem(*batch, names_of(names@)) is None && ints_read(*batch, names@, v@),
            Err(e) => first_int_problem(*batch, names_of(names@)) == Some((e.column@, e.problem)),
        },
{
    let mut ints: Vec<Vec<i64>> = Vec::new();
    let ghost all = names_of(names@);
    for j in 0..names.len()
        invariant
            all == names_of(names@),
            first_int_problem(*batch, all.take(j as int)) is None,
            ints_read(*batch, names@.take(j as int), ints@),
    {
        proof {
            assert(all.take(j + 1).drop_last() =~= all.take(j as int));
        }
        match i64_col(batch, names[j]) {
            Ok(v) => {
                let ghost before = ints@;
                ints.push(v);
                proof {
                    assert forall|k: int| 0 <= k < ints@.len() implies {
                        &&& (#[trigger] ints@[k])@.len() == row_count(*batch)
                        &&& forall|row: int|
                            0 <= row < ints@[k]@.len() ==> #[trigger] ints@[k]@[row] == int_at(
                                *batch,
                                names@.take(j + 1)[k]@,
                                row,
                            )
                    } by {
                        if k < j {
                            assert(before[k] == ints@[k]);
                        }
                    }
                }
            },
            Err(e) => {
                proof {
                    lemma_first_int_problem(*batch, all, j + 1);
                }
                return Err(e);
            },
        }
    }
    proof {
        assert(all.take(all.len() as int) =~= all);
        assert(names@.take(names@.len() as int) =~= names@);
    }
    Ok(ints)
}

proof fn lemma_first_int_problem(batch: Batch, names: Seq<Seq<char>>, n: int)
    requires
        0 <= n <= names.len(),
        first_int_problem(batch, names.take(n)) is Some,
    ensures
        first_int_problem(batch, names) == first_int_problem(batch, names.take(n)),
    decreases names.len(),
{
    if n < names.len() {
        let rest = names.drop_last();
        assert(rest.take(n) =~= names.take(n));
        lemma_first_int_problem(batch, rest, n);
    } else {
        assert(names.take(n) =~= names);
    }
}

proof fn lemma_first_problem(batches: Seq<Batch>, ints: Seq<Seq<char>>, text: Seq<char>, n: int)
    requires
        0 <= n <= batches.len(),
        first_problem(batches.take(n), ints, text) is Some,
    ensures
        first_problem(batches, ints, text) == first_problem(batches.take(n), ints, text),
    decreases batches.len(),
{
    if n < batches.len() {
        let rest = batches.drop_last();
        assert(rest.take(n) =~= batches.take(n));
        lemma_first_problem(rest, ints, text, n);
    } else {
        assert(batches.take(n) =~= batches);
    }
}

proof fn lemma_rows_grow(batches: Seq<Batch>, m: int, n: int)
    requires
        0 <= m <= n,
    ensures
        rows_before(batches, m) <= rows_before(batches, n),
    decreases n,
{
    if m < n {
        lemma_rows_grow(batches, m, n - 1);
    }
}

/// The integer columns of the kernel table, in the order in which they are read.
pub open spec fn kernel_columns() -> Seq<Seq<char>> {
    seq![
        "start_ns"@,
        "end_ns"@,
        "device_id"@,
        "context_id"@,
        "stream_id"@,
        "correlation_id"@,
        "global_pid"@,
        "grid_x"@,
        "grid_y"@,
        "grid_z"@,
        "block_x"@,
        "block_y"@,
        "block_z"@,
    ]
}

fn kernel_column_names() -> (names: Vec<&'static str>)
    ensures
        names_of(names@) == kernel_columns(),
        names@.len() == 13,
{
    let names: Vec<&'static str> = vec![
        "start_ns",
        "end_ns",
        "device_id",
        "context_id",
        "stream_id",
        "correlation_id",
        "global_pid",
        "grid_x",
        "grid_y",
        "grid_z",
        "block_x",
        "block_y",
        "block_z",
    ];
    assert(names_of(names@) =~= kernel_columns());
    names
}

/// `record` is what a row of a batch holds.
pub open spec fn kernel_read(batch: Batch, row: int, record: Kernel) -> bool {
    &&& record.start == int_at(batch, "start_ns"@, row)
    &&& record.end == int_at(batch, "end_ns"@, row)
    &&& record.device == int_at(batch, "device_id"@, row)
    &&& record.context == int_at(batch, "context_id"@, row)
    &&& record.stream == int_at(batch, "stream_id"@, row)
    &&& record.correlation == int_at(batch, "correlation_id"@, row)
    &&& record.global_pid == int_at(batch, "global_pid"@, row)
    &&& record.name@ == text_at(batch, "kernel_name"@, row)
    &&& record.grid@ == seq![int_at(batch, "grid_x"@, row), int_at(batch, "grid_y"@, row), int_at(batch, "grid_z"@, row)]
    &&& record.block@ == seq![int_at(batch, "block_x"@, row), int_at(batch, "block_y"@, row), int_at(batch, "block_z"@, row)]
    &&& record.sequence == 0
    &&& record.event_id@.len() == 0
    &&& record.launch_call is None
    &&& record.nvtx_regions@.len() == 0
}

/// The rows of the `b`th batch have been read in place.
pub open spec fn kernel_batch_read(batches: Seq<Batch>, records: Seq<Kernel>, b: int) -> bool {
    forall|row: int|
        0 <= row < row_count(batches[b]) ==> kernel_read(
            batches[b],
            row,
            #[trigger] kernel_of_row(batches, records, b, row),
        )
}

pub open spec fn kernel_of_row(batches: Seq<Batch>, records: Seq<Kernel>, b: int, row: int) -> Kernel {
    records[rows_before(batches, b) + row]
}

fn kernels_of_batch(batch: &Batch) -> (records: Result<Vec<Kernel>, ColumnError>)
    ensures
        match records {
            Ok(v) => {
                &&& batch_problem(*batch, kernel_columns(), "kernel_name"@) is None
                &&& v@.len() == row_count(*batch)
                &&& forall|row: int| 0 <= row < v@.len() ==> kernel_read(*batch, row, #[trigger] v@[row])
            },
            Err(e) => batch_problem(*batch, kernel_columns(), "kernel_name"@) == Some((e.column@, e.problem)),
        },
{
    let names = kernel_column_names();
    let ints = match read_ints(batch, &names) {
        Ok(v) => v,
        Err(e) => {
            return Err(e);
        },
    };
    proof {
        assert forall|j: int| 0 <= j < names@.len() implies #[trigger] names@[j]@ == kernel_columns()[j] by {
            assert(names_of(names@)[j] == names@[j]@);
        }
    }
    let rows: usize = num_rows(batch);
    let mut records: Vec<Kernel> = Vec::new();
    for row in 0..rows
        invariant
            rows == row_count(*batch),
            ints_read(*batch, names@, ints@),
            names@.len() == 13,
            forall|j: int| 0 <= j < names@.len() ==> #[trigger] names@[j]@ == kernel_columns()[j],
            first_int_problem(*batch, kernel_columns()) is None,
            row > 0 ==> text_problem(*batch, "kernel_name"@) is None,
            records@.len() == row,
            forall|i: int| 0 <= i < row ==> kernel_read(*batch, i, #[trigger] records@[i]),
    {
        let text = match string_at(batch, "kernel_name", row) {
            Ok(text) => text,
            Err(e) => {
                return Err(e);
            },
        };
        let record = Kernel {
            start: ints[0][row],
            end: ints[1][row],
            device: ints[2][row],
            context: ints[3][row],
            stream: ints[4][row],
            correlation: ints[5][row],
            global_pid: ints[6][row],
            name: text,
            grid: [ints[7][row], ints[8][row], ints[9][row]],
            block: [ints[10][row], ints[11][row], ints[12][row]],
            sequence: 0,
            event_id: String::new(),
            launch_call: None,
            nvtx_regions: Vec::new(),
        };
        assert(record.grid@ =~= seq![
            int_at(*batch, "grid_x"@, row as int),
            int_at(*batch, "grid_y"@, row as int),
            int_at(*batch, "grid_z"@, row as int),
        ]);
        assert(record.block@ =~= seq![
            int_at(*batch, "block_x"@, row as int),
            int_at(*batch, "block_y"@, row as int),
            int_at(*batch, "block_z"@, row as int),
        ]);
        records.push(record);
    }
    Ok(records)
}

/// Reads the kernel table.
pub fn load_kernels(batches: &Vec<Batch>) -> (records: Result<Vec<Kernel>, ColumnError>)
    ensures
        match records {
            Ok(v) => {
                &&& first_problem(batches@, kernel_columns(), "kernel_name"@) is None
                &&& v@.len() == rows_before(batches@, batches@.len() as int)
                &&& forall|b: int| 0 <= b < batches@.len() ==> #[trigger] kernel_batch_read(batches@, v@, b)
            },
            Err(e) => first_problem(batches@, kernel_columns(), "kernel_name"@) == Some((e.column@, e.problem)),
        },
{
    let mut records: Vec<Kernel> = Vec::new();
    let ghost ints = kernel_columns();
    let ghost text = "kernel_name"@;
    for b in 0..batches.len()
        invariant
            ints == kernel_columns(),
            text == "kernel_name"@,
            first_problem(batches@.take(b as int), ints, text) is None,
            records@.len() == rows_before(batches@, b as int),
            forall|k: int| 0 <= k < b ==> #[trigger] kernel_batch_read(batches@, records@, k),
    {
        proof {
            assert(batches@.take(b + 1).drop_last() =~= batches@.take(b as int));
        }
        match kernels_of_batch(&batches[b]) {
            Ok(some) => {
                let ghost before = records@;
                let ghost added = some@;
                let mut some = some;
                records.append(&mut some);
                proof {
                    assert forall|k: int| 0 <= k < b + 1 implies #[trigger] kernel_batch_read(
                        batches@,
                        records@,
                        k,
                    ) by {
                        assert forall|row: int| 0 <= row < row_count(batches@[k]) implies kernel_read(
                            batches@[k],
                            row,
                            #[trigger] kernel_of_row(batches@, records@, k, row),
                        ) by {
                            if k < b {
                                lemma_rows_grow(batches@, k + 1, b as int);
                                assert(kernel_batch_read(batches@, before, k));
                                assert(kernel_of_row(batches@, records@, k, row) == kernel_of_row(
                                    batches@,
                                    before,
                                    k,
                                    row,
                                ));
                            } else {
                                assert(kernel_of_row(batches@, records@, k, row) == added[row]);
                            }
                        }
                    }
                }
            },
            Err(e) => {
                proof {
                    lemma_first_problem(batches@, ints, text, b + 1);
                }
                return Err(e);
            },
        }
    }
    assert(batches@.take(batches@.len() as int) =~= batches@);
    Ok(records)
}

/// The integer columns of the NVTX table, in the order in which they are read.
pub open spec fn range_columns() -> Seq<Seq<char>> {
    seq![
        "start_ns"@,
        "end_ns"@,
        "global_tid"@,
    ]
}

fn range_column_names() -> (names: Vec<&'static str>)
    ensures
        names_of(names@) == range_columns(),
        names@.len() == 3,
{
    let names: Vec<&'static str> = vec![
        "start_ns",
        "end_ns",
        "global_tid",
    ];
    assert(names_of(names@) =~= range_columns());
    names
}

/// `record` is what a row of a batch holds.
pub open spec fn range_read(batch: Batch, row: int, record: NvtxRange) -> bool {
    &&& record.start == int_at(batch, "start_ns"@, row)
    &&& record.end == int_at(batch, "end_ns"@, row)
    &&& record.name@ == text_at(batch, "nvtx_name"@, row)
    &&& record.pid == pid_of(int_at(batch, "global_tid"@, row))
    &&& record.tid == tid_of(int_at(batch, "global_tid"@, row))
    &&& record.kernel_bounds@ == Map::<i64, (i64, i64)>::empty()
}

/// The rows of the `b`th batch have been read in place.
pub open spec fn range_batch_read(batches: Seq<Batch>, records: Seq<NvtxRange>, b: int) -> bool {
    forall|row: int|
        0 <= row < row_count(batches[b]) ==> range_read(
            batches[b],
            row,
            #[trigger] range_of_row(batches, records, b, row),
        )
}

pub open spec fn range_of_row(batches: Seq<Batch>, records: Seq<NvtxRange>, b: int, row: int) -> NvtxRange {
    records[rows_before(batches, b) + row]
}

fn ranges_of_batch(batch: &Batch) -> (records: Result<Vec<NvtxRange>, ColumnError>)
    ensures
        match records {
            Ok(v) => {
                &&& batch_problem(*batch, range_columns(), "nvtx_name"@) is None
                &&& v@.len() == row_count(*batch)
                &&& forall|row: int| 0 <= row < v@.len() ==> range_read(*batch, row, #[trigger] v@[row])
            },
            Err(e) => batch_problem(*batch, range_columns(), "nvtx_name"@) == Some((e.column@, e.problem)),
        },
{
    let names = range_column_names();
    let ints = match read_ints(batch, &names) {
        Ok(v) => v,
        Err(e) => {
            return Err(e);
        },
    };
    proof {
        assert forall|j: int| 0 <= j < names@.len() implies #[trigger] names@[j]@ == range_columns()[j] by {
            assert(names_of(names@)[j] == names@[j]@);
        }
    }
    let rows: usize = num_rows(batch);
    let mut records: Vec<NvtxRange> = Vec::new();
    for row in 0..rows
        invariant
            rows == row_count(*batch),
            ints_read(*batch, names@, ints@),
            names@.len() == 3,
            forall|j: int| 0 <= j < names@.len() ==> #[trigger] names@[j]@ == range_columns()[j],
            first_int_problem(*batch, range_columns()) is None,
            row > 0 ==> text_problem(*batch, "nvtx_name"@) is None,
            records@.len() == row,
            forall|i: int| 0 <= i < row ==> range_read(*batch, i, #[trigger] records@[i]),
    {
        let text = match string_at(batch, "nvtx_name", row) {
            Ok(text) => text,
            Err(e) => {
                return Err(e);
            },
        };
        let global_tid: i64 = ints[2][row];
        records.push(
            NvtxRange {
                start: ints[0][row],
                end: ints[1][row],
                name: text,
                pid: source_pid(global_tid),
                tid: source_tid(global_tid),
                kernel_bounds: BTreeMap::new(),
            },
        );
    }
    Ok(records)
}

/// Reads the NVTX table.
pub fn load_nvtx(batches: &Vec<Batch>) -> (records: Result<Vec<NvtxRange>, ColumnError>)
    ensures
        match records {
            Ok(v) => {
                &&& first_problem(batches@, range_columns(), "nvtx_name"@) is None
                &&& v@.len() == rows_before(batches@, batches@.len() as int)
                &&& forall|b: int| 0 <= b < batches@.len() ==> #[trigger] range_batch_read(batches@, v@, b)
            },
            Err(e) => first_problem(batches@, range_columns(), "nvtx_name"@) == Some((e.column@, e.problem)),
        },
{
    let mut records: Vec<NvtxRange> = Vec::new();
    let ghost ints = range_columns();
    let ghost text = "nvtx_name"@;
    for b in 0..batches.len()
        invariant
            ints == range_columns(),
            text == "nvtx_name"@,
            first_problem(batches@.take(b as int), ints, text) is None,
            records@.len() == rows_before(batches@, b as int),
            forall|k: int| 0 <= k < b ==> #[trigger] range_batch_read(batches@, records@, k),
    {
        proof {
            assert(batches@.take(b + 1).drop_last() =~= batches@.take(b as int));
        }
        match ranges_of_batch(&batches[b]) {
            Ok(some) => {
                let ghost before = records@;
                let ghost added = some@;
                let mut some = some;
                records.append(&mut some);
                proof {
                    assert forall|k: int| 0 <= k < b + 1 implies #[trigger] range_batch_read(
                        batches@,
                        records@,
                        k,
                    ) by {
                        assert forall|row: int| 0 <= row < row_count(batches@[k]) implies range_read(
                            batches@[k],
                            row,
                            #[trigger] range_of_row(batches@, records@, k, row),
                        ) by {
                            if k < b {
                                lemma_rows_grow(batches@, k + 1, b as int);
                                assert(range_batch_read(batches@, before, k));
                                assert(range_of_row(batches@, records@, k, row) == range_of_row(
                                    batches@,
                                    before,
                                    k,
                                    row,
                                ));
                            } else {
                                assert(range_of_row(batches@, records@, k, row) == added[row]);
                            }
                        }
                    }
                }
            },
            Err(e) => {
                proof {
                    lemma_first_problem(batches@, ints, text, b + 1);
                }
                return Err(e);
            },
        }
    }
    assert(batches@.take(batches@.len() as int) =~= batches@);
    Ok(records)
}

/// The integer columns of the Runtime call table, in the order in which they are read.
pub open spec fn call_columns() -> Seq<Seq<char>> {
    seq![
        "start_ns"@,
        "end_ns"@,
        "global_tid"@,
        "correlation_id"@,
    ]
}

fn call_column_names() -> (names: Vec<&'static str>)
    ensures
        names_of(names@) == call_columns(),
        names@.len() == 4,
{
    let names: Vec<&'static str> = vec![
        "start_ns",
        "end_ns",
        "global_tid",
        "correlation_id",
    ];
    assert(names_of(names@) =~= call_columns());
    names
}

/// `record` is what a row of a batch holds.
pub open spec fn call_read(batch: Batch, row: int, record: RuntimeCall) -> bool {
    &&& record.start == int_at(batch, "start_ns"@, row)
    &&& record.end == int_at(batch, "end_ns"@, row)
    &&& record.global_tid == int_at(batch, "global_tid"@, row)
    &&& record.correlation == int_at(batch, "correlation_id"@, row)
    &&& record.name@ == text_at(batch, "runtime_name"@, row)
    &&& record.event_id is None
}

/// The rows of the `b`th batch have been read in place.
pub open spec fn call_batch_read(batches: Seq<Batch>, records: Seq<RuntimeCall>, b: int) -> bool {
    forall|row: int|
        0 <= row < row_count(batches[b]) ==> call_read(
            batches[b],
            row,
            #[trigger] call_of_row(batches, records, b, row),
        )
}

pub open spec fn call_of_row(batches: Seq<Batch>, records: Seq<RuntimeCall>, b: int, row: int) -> RuntimeCall {
    records[rows_before(batches, b) + row]
}

fn calls_of_batch(batch: &Batch) -> (records: Result<Vec<RuntimeCall>, ColumnError>)
    ensures
        match records {
            Ok(v) => {
                &&& batch_problem(*batch, call_columns(), "runtime_name"@) is None
                &&& v@.len() == row_count(*batch)
                &&& forall|row: int| 0 <= row < v@.len() ==> call_read(*batch, row, #[trigger] v@[row])
            },
            Err(e) => batch_problem(*batch, call_columns(), "runtime_name"@) == Some((e.column@, e.problem)),
        },
{
    let names = call_column_names();
    let ints = match read_ints(batch, &names) {
        Ok(v) => v,
        Err(e) => {
            return Err(e);
        },
    };
    proof {
        assert forall|j: int| 0 <= j < names@.len() implies #[trigger] names@[j]@ == call_columns()[j] by {
            assert(names_of(names@)[j] == names@[j]@);
        }
    }
    let rows: usize = num_rows(batch);
    let mut records: Vec<RuntimeCall> = Vec::new();
    for row in 0..rows
        invariant
            rows == row_count(*batch),
            ints_read(*batch, names@, ints@),
            names@.len() == 4,
            forall|j: int| 0 <= j < names@.len() ==> #[trigger] names@[j]@ == call_columns()[j],
            first_int_problem(*batch, call_columns()) is None,
            row > 0 ==> text_problem(*batch, "runtime_name"@) is None,
            records@.len() == row,
            forall|i: int| 0 <= i < row ==> call_read(*batch, i, #[trigger] records@[i]),
    {
        let text = match string_at(batch, "runtime_name", row) {
            Ok(text) => text,
            Err(e) => {
                return Err(e);
            },
        };
        records.push(
            RuntimeCall {
                start: ints[0][row],
                end: ints[1][row],
                global_tid: ints[2][row],
                correlation: ints[3][row],
                name: text,
                event_id: None,
            },
        );
    }
    Ok(records)
}

/// Reads the Runtime call table.
pub fn load_runtime(batches: &Vec<Batch>) -> (records: Result<Vec<RuntimeCall>, ColumnError>)
    ensures
        match records {
            Ok(v) => {
                &&& first_problem(batches@, call_columns(), "runtime_name"@) is None
                &&& v@.len() == rows_before(batches@, batches@.len() as int)
                &&& forall|b: int| 0 <= b < batches@.len() ==> #[trigger] call_batch_read(batches@, v@, b)
            },
            Err(e) => first_problem(batches@, call_columns(), "runtime_name"@) == Some((e.column@, e.problem)),
        },
{
    let mut records: Vec<RuntimeCall> = Vec::new();
    let ghost ints = call_columns();
    let ghost text = "runtime_name"@;
    for b in 0..batches.len()
        invariant
            ints == call_columns(),
            text == "runtime_name"@,
            first_problem(batches@.take(b as int), ints, text) is None,
            records@.len() == rows_before(batches@, b as int),
            forall|k: int| 0 <= k < b ==> #[trigger] call_batch_read(batches@, records@, k),
    {
        proof {
            assert(batches@.take(b + 1).drop_last() =~= batches@.take(b as int));
        }
        match calls_of_batch(&batches[b]) {
            Ok(some) => {
                let ghost before = records@;
                let ghost added = some@;
                let mut some = some;
                records.append(&mut some);
                proof {
                    assert forall|k: int| 0 <= k < b + 1 implies #[trigger] call_batch_read(
                        batches@,
                        records@,
                        k,
                    ) by {
                        assert forall|row: int| 0 <= row < row_count(batches@[k]) implies call_read(
                            batches@[k],
                            row,
                            #[trigger] call_of_row(batches@, records@, k, row),
                        ) by {
                            if k < b {
                                lemma_rows_grow(batches@, k + 1, b as int);
                                assert(call_batch_read(batches@, before, k));
                                assert(call_of_row(batches@, records@, k, row) == call_of_row(
                                    batches@,
                                    before,
                                    k,
                                    row,
                                ));
                            } else {
                                assert(call_of_row(batches@, records@, k, row) == added[row]);
                            }
                        }
                    }
                }
            },
            Err(e) => {
                proof {
                    lemma_first_problem(batches@, ints, text, b + 1);
                }
                return Err(e);
            },
        }
    }
    assert(batches@.take(batches@.len() as int) =~= batches@);
    Ok(records)
}

/// The integer columns of the memory copy table, in the order in which they are read.
pub open spec fn copy_columns() -> Seq<Seq<char>> {
    seq![
        "start_ns"@,
        "end_ns"@,
        "device_id"@,
        "context_id"@,
        "stream_id"@,
        "correlation_id"@,
        "global_pid"@,
        "bytes"@,
        "copy_kind"@,
        "src_kind"@,
        "dst_kind"@,
        "src_device_id"@,
        "src_context_id"@,
        "dst_device_id"@,
        "dst_context_id"@,
        "graph_node_id"@,
        "copy_count"@,
    ]
}

fn copy_column_names() -> (names: Vec<&'static str>)
    ensures
        names_of(names@) == copy_columns(),
        names@.len() == 17,
{
    let names: Vec<&'static str> = vec![
        "start_ns",
        "end_ns",
        "device_id",
        "context_id",
        "stream_id",
        "correlation_id",
        "global_pid",
        "bytes",
        "copy_kind",
        "src_kind",
        "dst_kind",
        "src_device_id",
        "src_context_id",
        "dst_device_id",
        "dst_context_id",
        "graph_node_id",
        "copy_count",
    ];
    assert(names_of(names@) =~= copy_columns());
    names
}

/// `record` is what a row of a batch holds.
pub open spec fn copy_read(batch: Batch, row: int, record: Memcpy) -> bool {
    &&& record.start == int_at(batch, "start_ns"@, row)
    &&& record.end == int_at(batch, "end_ns"@, row)
    &&& record.device == int_at(batch, "device_id"@, row)
    &&& record.context == int_at(batch, "context_id"@, row)
    &&& record.stream == int_at(batch, "stream_id"@, row)
    &&& record.correlation == int_at(batch, "correlation_id"@, row)
    &&& record.global_pid == int_at(batch, "global_pid"@, row)
    &&& record.bytes == int_at(batch, "bytes"@, row) as u64
    &&& record.copy_kind == int_at(batch, "copy_kind"@, row)
    &&& record.src_kind == int_at(batch, "src_kind"@, row)
    &&& record.dst_kind == int_at(batch, "dst_kind"@, row)
    &&& record.src_device == int_at(batch, "src_device_id"@, row)
    &&& record.src_context == int_at(batch, "src_context_id"@, row)
    &&& record.dst_device == int_at(batch, "dst_device_id"@, row)
    &&& record.dst_context == int_at(batch, "dst_context_id"@, row)
    &&& record.graph_node == int_at(batch, "graph_node_id"@, row)
    &&& record.copy_count == int_at(batch, "copy_count"@, row) as u64
    &&& record.virtual_address@ == text_at(batch, "virtual_address"@, row)
    &&& record.event_id@.len() == 0
    &&& record.launch_call is None
}

/// The rows of the `b`th batch have been read in place.
pub open spec fn copy_batch_read(batches: Seq<Batch>, records: Seq<Memcpy>, b: int) -> bool {
    forall|row: int|
        0 <= row < row_count(batches[b]) ==> copy_read(
            batches[b],
            row,
            #[trigger] copy_of_row(batches, records, b, row),
        )
}

pub open spec fn copy_of_row(batches: Seq<Batch>, records: Seq<Memcpy>, b: int, row: int) -> Memcpy {
    records[rows_before(batches, b) + row]
}

fn copies_of_batch(batch: &Batch) -> (records: Result<Vec<Memcpy>, ColumnError>)
    ensures
        match records {
            Ok(v) => {
                &&& batch_problem(*batch, copy_columns(), "virtual_address"@) is None
                &&& v@.len() == row_count(*batch)
                &&& forall|row: int| 0 <= row < v@.len() ==> copy_read(*batch, row, #[trigger] v@[row])
            },
            Err(e) => batch_problem(*batch, copy_columns(), "virtual_address"@) == Some((e.column@, e.problem)),
        },
{
    let names = copy_column_names();
    let ints = match read_ints(batch, &names) {
        Ok(v) => v,
        Err(e) => {
            return Err(e);
        },
    };
    proof {
        assert forall|j: int| 0 <= j < names@.len() implies #[trigger] names@[j]@ == copy_columns()[j] by {
            assert(names_of(names@)[j] == names@[j]@);
        }
    }
    let rows: usize = num_rows(batch);
    let mut records: Vec<Memcpy> = Vec::new();
    for row in 0..rows
        invariant
            rows == row_count(*batch),
            ints_read(*batch, names@, ints@),
            names@.len() == 17,
            forall|j: int| 0 <= j < names@.len() ==> #[trigger] names@[j]@ == copy_columns()[j],
            first_int_problem(*batch, copy_columns()) is None,
            row > 0 ==> text_problem(*batch, "virtual_address"@) is None,
            records@.len() == row,
            forall|i: int| 0 <= i < row ==> copy_read(*batch, i, #[trigger] records@[i]),
    {
        let text = match string_at(batch, "virtual_address", row) {
            Ok(text) => text,
            Err(e) => {
                return Err(e);
            },
        };
        records.push(
            Memcpy {
                start: ints[0][row],
                end: ints[1][row],
                device: ints[2][row],
                context: ints[3][row],
                stream: ints[4][row],
                correlation: ints[5][row],
                global_pid: ints[6][row],
                bytes: ints[7][row] as u64,
                copy_kind: ints[8][row],
                src_kind: ints[9][row],
                dst_kind: ints[10][row],
                src_device: ints[11][row],
                src_context: ints[12][row],
                dst_device: ints[13][row],
                dst_context: ints[14][row],
                graph_node: ints[15][row],
                copy_count: ints[16][row] as u64,
                virtual_address: text,
                event_id: String::new(),
                launch_call: None,
            },
        );
    }
    Ok(records)
}

/// Reads the memory copy table.
pub fn load_memcpys(batches: &Vec<Batch>) -> (records: Result<Vec<Memcpy>, ColumnError>)
    ensures
        match records {
            Ok(v) => {
                &&& first_problem(batches@, copy_columns(), "virtual_address"@) is None
                &&& v@.len() == rows_before(batches@, batches@.len() as int)
                &&& forall|b: int| 0 <= b < batches@.len() ==> #[trigger] copy_batch_read(batches@, v@, b)
            },
            Err(e) => first_problem(batches@, copy_columns(), "virtual_address"@) == Some((e.column@, e.problem)),
        },
{
    let mut records: Vec<Memcpy> = Vec::new();
    let ghost ints = copy_columns();
    let ghost text = "virtual_address"@;
    for b in 0..batches.len()
        invariant
            ints == copy_columns(),
            text == "virtual_address"@,
            first_problem(batches@.take(b as int), ints, text) is None,
            records@.len() == rows_before(batches@, b as int),
            forall|k: int| 0 <= k < b ==> #[trigger] copy_batch_read(batches@, records@, k),
    {
        proof {
            assert(batches@.take(b + 1).drop_last() =~= batches@.take(b as int));
        }
        match copies_of_batch(&batches[b]) {
            Ok(some) => {
                let ghost before = records@;
                let ghost added = some@;
                let mut some = some;
                records.append(&mut some);
                proof {
                    assert forall|k: int| 0 <= k < b + 1 implies #[trigger] copy_batch_read(
                        batches@,
                        records@,
                        k,
                    ) by {
                        assert forall|row: int| 0 <= row < row_count(batches@[k]) implies copy_read(
                            batches@[k],
                            row,
                            #[trigger] copy_of_row(batches@, records@, k, row),
                        ) by {
                            if k < b {
                                lemma_rows_grow(batches@, k + 1, b as int);
                                assert(copy_batch_read(batches@, before, k));
                                assert(copy_of_row(batches@, records@, k, row) == copy_of_row(
                                    batches@,
                                    before,
                                    k,
                                    row,
                                ));
                            } else {
                                assert(copy_of_row(batches@, records@, k, row) == added[row]);
                            }
                        }
                    }
                }
            },
            Err(e) => {
                proof {
                    lemma_first_problem(batches@, ints, text, b + 1);
                }
                return Err(e);
            },
        }
    }
    assert(batches@.take(batches@.len() as int) =~= batches@);
    Ok(records)
}

/// The batch and the row that a record was read from.
proof fn lemma_row_of(batches: Seq<Batch>, n: int, k: int) -> (place: (int, int))
    requires
        0 <= n <= batches.len(),
        0 <= k < rows_before(batches, n),
    ensures
        0 <= place.0 < n,
        0 <= place.1 < row_count(batches[place.0]),
        k == rows_before(batches, place.0) + place.1,
    decreases n,
{
    if k < rows_before(batches, n - 1) {
        lemma_row_of(batches, n - 1, k)
    } else {
        (n - 1, k - rows_before(batches, n - 1))
    }
}

/// Records that have just been read are linked to nothing and projected to nothing.
pub proof fn lemma_loaded_records_are_fresh(
    kernel_batches: Seq<Batch>,
    copy_batches: Seq<Batch>,
    range_batches: Seq<Batch>,
    r: Recorded,
)
    requires
        r.kernels.len() == rows_before(kernel_batches, kernel_batches.len() as int),
        forall|b: int| 0 <= b < kernel_batches.len() ==> #[trigger] kernel_batch_read(kernel_batches, r.kernels, b),
        r.memcpys.len() == rows_before(copy_batches, copy_batches.len() as int),
        forall|b: int| 0 <= b < copy_batches.len() ==> #[trigger] copy_batch_read(copy_batches, r.memcpys, b),
        r.nvtx.len() == rows_before(range_batches, range_batches.len() as int),
        forall|b: int| 0 <= b < range_batches.len() ==> #[trigger] range_batch_read(range_batches, r.nvtx, b),
    ensures
        fresh(r),
{
    assert forall|k: int| 0 <= k < r.kernels.len() implies (#[trigger] r.kernels[k]).launch_call is None by {
        let place = lemma_row_of(kernel_batches, kernel_batches.len() as int, k);
        assert(kernel_batch_read(kernel_batches, r.kernels, place.0));
        assert(kernel_read(
            kernel_batches[place.0],
            place.1,
            kernel_of_row(kernel_batches, r.kernels, place.0, place.1),
        ));
    }
    assert forall|i: int| 0 <= i < r.memcpys.len() implies (#[trigger] r.memcpys[i]).launch_call is None by {
        let place = lemma_row_of(copy_batches, copy_batches.len() as int, i);
        assert(copy_batch_read(copy_batches, r.memcpys, place.0));
        assert(copy_read(copy_batches[place.0], place.1, copy_of_row(copy_batches, r.memcpys, place.0, place.1)));
    }
    assert forall|n: int| 0 <= n < r.nvtx.len() implies (#[trigger] r.nvtx[n]).kernel_bounds@.dom() =~= Set::empty() by {
        let place = lemma_row_of(range_batches, range_batches.len() as int, n);
        assert(range_batch_read(range_batches, r.nvtx, place.0));
        assert(range_read(range_batches[place.0], place.1, range_of_row(range_batches, r.nvtx, place.0, place.1)));
    }
}

} // verus!
