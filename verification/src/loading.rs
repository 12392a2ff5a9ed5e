//! What is loaded of every table.
use crate::batches::{columns, row_count, Batch, Column, ColumnProblem};
use crate::input::{
    batch_problem, call_batch_read, call_columns, call_of_row, call_read, copy_batch_read, copy_columns, copy_of_row,
    copy_read, first_int_problem, first_problem, kernel_batch_read, kernel_columns, kernel_of_row, kernel_read,
    range_batch_read, range_columns, range_of_row, range_read, rows_before,
};
use crate::model::{pid_of, tid_of, Kernel, Memcpy, NvtxRange, RuntimeCall};
use vstd::prelude::*;

verus! {

/// The batch has a column of integers of this name.
pub open spec fn has_ints(batch: Batch, name: Seq<char>) -> bool {
    columns(batch).contains_key(name) && columns(batch)[name] is Ints
}

/// The batch has a column of strings of this name, in either layout.
pub open spec fn has_texts(batch: Batch, name: Seq<char>) -> bool {
    columns(batch).contains_key(name) && (columns(batch)[name] is Utf8 || columns(batch)[name] is Utf8View)
}

/// The column of this name holds this integer in this row.
pub open spec fn holds_int(batch: Batch, name: Seq<char>, row: int, n: i64) -> bool {
    columns(batch).contains_key(name) && (columns(batch)[name] matches Column::Ints(values) && values[row] == n)
}

/// The column of this name holds this text in this row.
pub open spec fn holds_text(batch: Batch, name: Seq<char>, row: int, text: Seq<char>) -> bool {
    columns(batch).contains_key(name) && match columns(batch)[name] {
        Column::Utf8(values) => values[row] == text,
        Column::Utf8View(values) => values[row] == text,
        _ => false,
    }
}

/// What an unreadable column is reported for.
pub open spec fn is_wrong(batch: Batch, name: Seq<char>, problem: ColumnProblem) -> bool {
    match problem {
        ColumnProblem::Missing => !columns(batch).contains_key(name),
        ColumnProblem::NotInt64 => columns(batch).contains_key(name) && !(columns(batch)[name] is Ints),
        ColumnProblem::NotText => columns(batch).contains_key(name) && !(columns(batch)[name] is Utf8)
            && !(columns(batch)[name] is Utf8View),
    }
}

/// The number of rows in the batches before the `b`th.
pub open spec fn rows_ahead(batches: Seq<Batch>, b: int) -> nat
    decreases b,
{
    if b <= 0 {
        0
    } else {
        row_count(batches[b - 1]) + rows_ahead(batches, b - 1)
    }
}

proof fn lemma_ahead(batches: Seq<Batch>, b: int)
    ensures
        rows_ahead(batches, b) == rows_before(batches, b),
    decreases b,
{
    if b > 0 {
        lemma_ahead(batches, b - 1);
    }
}

/// Every name is that of a column of integers.
pub open spec fn all_ints(batch: Batch, names: Seq<Seq<char>>) -> bool {
    forall|j: int| 0 <= j < names.len() ==> has_ints(batch, #[trigger] names[j])
}

/// The first column that cannot be read as integers is reported.
pub proof fn lemma_first_int_problem_is_first(batch: Batch, names: Seq<Seq<char>>)
    ensures
        first_int_problem(batch, names) is None <==> all_ints(batch, names),
        first_int_problem(batch, names) matches Some(found) ==> {
            exists|j: int|
                {
                    &&& 0 <= j < names.len()
                    &&& #[trigger] names[j] == found.0
                    &&& is_wrong(batch, found.0, found.1)
                    &&& !(found.1 is NotText)
                    &&& all_ints(batch, names.take(j))
                }
        },
    decreases names.len(),
{
    if names.len() > 0 {
        let rest = names.drop_last();
        lemma_first_int_problem_is_first(batch, rest);
        match first_int_problem(batch, rest) {
            Some(found) => {
                let j = choose|j: int|
                    {
                        &&& 0 <= j < rest.len()
                        &&& #[trigger] rest[j] == found.0
                        &&& is_wrong(batch, found.0, found.1)
                        &&& !(found.1 is NotText)
                        &&& all_ints(batch, rest.take(j))
                    };
                assert(names[j] == found.0);
                assert(names.take(j) =~= rest.take(j));
            },
            None => {
                assert(names.take(names.len() - 1) =~= rest);
                assert(names[names.len() - 1] == names.last());
                if has_ints(batch, names.last()) {
                    assert forall|j: int| 0 <= j < names.len() implies has_ints(batch, #[trigger] names[j]) by {
                        if j < rest.len() {
                            assert(rest[j] == names[j]);
                        }
                    }
                }
            },
        }
        if all_ints(batch, names) {
            assert forall|j: int| 0 <= j < rest.len() implies has_ints(batch, #[trigger] rest[j]) by {
                assert(names[j] == rest[j]);
            }
            assert(has_ints(batch, names[names.len() - 1]));
        }
    }
}

/// The batch has everything that is read of it; an empty one needs no strings.
pub open spec fn readable(batch: Batch, ints: Seq<Seq<char>>, text: Seq<char>) -> bool {
    all_ints(batch, ints) && (row_count(batch) == 0 || has_texts(batch, text))
}

/// Loading stops at the first batch that cannot be read, for what is wrong with it; it
/// succeeds where there is none.
pub proof fn lemma_first_problem_is_first(batches: Seq<Batch>, ints: Seq<Seq<char>>, text: Seq<char>)
    ensures
        first_problem(batches, ints, text) is None <==> forall|b: int|
            0 <= b < batches.len() ==> readable(#[trigger] batches[b], ints, text),
        first_problem(batches, ints, text) matches Some(found) ==> {
            exists|b: int|
                {
                    &&& 0 <= b < batches.len()
                    &&& is_wrong(#[trigger] batches[b], found.0, found.1)
                    &&& found.0 == text && all_ints(batches[b], ints) || ints.contains(found.0)
                    &&& forall|a: int| 0 <= a < b ==> readable(#[trigger] batches[a], ints, text)
                }
        },
    decreases batches.len(),
{
    if batches.len() > 0 {
        let rest = batches.drop_last();
        let last = batches.last();
        lemma_first_problem_is_first(rest, ints, text);
        lemma_first_int_problem_is_first(last, ints);
        assert(batches[batches.len() - 1] == last);
        assert(readable(last, ints, text) <==> batch_problem(last, ints, text) is None);
        assert forall|b: int| 0 <= b < rest.len() implies rest[b] == #[trigger] batches[b] by {}
        match first_problem(rest, ints, text) {
            Some(found) => {
                let b = choose|b: int|
                    {
                        &&& 0 <= b < rest.len()
                        &&& is_wrong(#[trigger] rest[b], found.0, found.1)
                        &&& found.0 == text && all_ints(rest[b], ints) || ints.contains(found.0)
                        &&& forall|a: int| 0 <= a < b ==> readable(#[trigger] rest[a], ints, text)
                    };
                assert(is_wrong(batches[b], found.0, found.1));
                assert forall|a: int| 0 <= a < b implies readable(#[trigger] batches[a], ints, text) by {
                    assert(readable(rest[a], ints, text));
                }
                if forall|b: int| 0 <= b < batches.len() ==> readable(#[trigger] batches[b], ints, text) {
                    assert forall|b: int| 0 <= b < rest.len() implies readable(#[trigger] rest[b], ints, text) by {
                        assert(readable(batches[b], ints, text));
                    }
                }
            },
            None => {
                assert forall|a: int| 0 <= a < batches.len() - 1 implies readable(#[trigger] batches[a], ints, text) by {
                    assert(readable(rest[a], ints, text));
                }
                match batch_problem(last, ints, text) {
                    Some(found) => {
                        assert(is_wrong(batches[batches.len() - 1], found.0, found.1));
                        assert(!readable(batches[batches.len() - 1], ints, text));
                    },
                    None => {
                        assert(readable(last, ints, text));
                    },
                }
            },
        }
    }
}

/// The columns of integers that the table of kernels needs.
pub open spec fn kernel_ints(batch: Batch) -> bool {
    &&& has_ints(batch, "start_ns"@)
    &&& has_ints(batch, "end_ns"@)
    &&& has_ints(batch, "device_id"@)
    &&& has_ints(batch, "context_id"@)
    &&& has_ints(batch, "stream_id"@)
    &&& has_ints(batch, "correlation_id"@)
    &&& has_ints(batch, "global_pid"@)
    &&& has_ints(batch, "grid_x"@)
    &&& has_ints(batch, "grid_y"@)
    &&& has_ints(batch, "grid_z"@)
    &&& has_ints(batch, "block_x"@)
    &&& has_ints(batch, "block_y"@)
    &&& has_ints(batch, "block_z"@)
}

/// The table of kernels loads exactly if each of its batches has these columns, and the
/// strings too where it has rows.
pub proof fn lemma_kernels_load(batches: Seq<Batch>)
    ensures
        first_problem(batches, kernel_columns(), "kernel_name"@) is None <==> forall|b: int|
            0 <= b < batches.len() ==> kernel_ints(#[trigger] batches[b]) && (row_count(batches[b]) == 0 || has_texts(
                batches[b],
                "kernel_name"@,
            )),
{
    lemma_first_problem_is_first(batches, kernel_columns(), "kernel_name"@);
    assert forall|batch: Batch| #[trigger] all_ints(batch, kernel_columns()) == kernel_ints(batch) by {
        lemma_kernel_columns(batch);
    }
    if forall|b: int| 0 <= b < batches.len() ==> readable(#[trigger] batches[b], kernel_columns(), "kernel_name"@) {
        assert forall|b: int| 0 <= b < batches.len() implies kernel_ints(#[trigger] batches[b]) && (row_count(batches[b])
            == 0 || has_texts(batches[b], "kernel_name"@)) by {
            assert(readable(batches[b], kernel_columns(), "kernel_name"@));
        }
    } else {
        let b = choose|b: int|
            0 <= b < batches.len() && !readable(#[trigger] batches[b], kernel_columns(), "kernel_name"@);
        assert(!(kernel_ints(batches[b]) && (row_count(batches[b]) == 0 || has_texts(batches[b], "kernel_name"@))));
    }
}

proof fn lemma_kernel_columns(batch: Batch)
    ensures
        all_ints(batch, kernel_columns()) == kernel_ints(batch),
{
    let names = kernel_columns();
    assert(names.len() == 13);
    assert(names[0] == "start_ns"@);
    assert(names[1] == "end_ns"@);
    assert(names[2] == "device_id"@);
    assert(names[3] == "context_id"@);
    assert(names[4] == "stream_id"@);
    assert(names[5] == "correlation_id"@);
    assert(names[6] == "global_pid"@);
    assert(names[7] == "grid_x"@);
    assert(names[8] == "grid_y"@);
    assert(names[9] == "grid_z"@);
    assert(names[10] == "block_x"@);
    assert(names[11] == "block_y"@);
    assert(names[12] == "block_z"@);
    if kernel_ints(batch) {
        assert forall|j: int| 0 <= j < names.len() implies has_ints(batch, #[trigger] names[j]) by {
            assert(j == 0 || j == 1 || j == 2 || j == 3 || j == 4 || j == 5 || j == 6 || j == 7 || j == 8 || j == 9 || j == 10 || j == 11 || j == 12);
        }
    }
}

/// Row for row, the loaded kernels hold what the columns of their table hold, and nothing
/// that is found out later.
pub proof fn lemma_loaded_kernels(batches: Seq<Batch>, records: Seq<Kernel>, b: int, row: int)
    requires
        first_problem(batches, kernel_columns(), "kernel_name"@) is None,
        records.len() == rows_before(batches, batches.len() as int),
        forall|b: int| 0 <= b < batches.len() ==> #[trigger] kernel_batch_read(batches, records, b),
        0 <= b < batches.len(),
        0 <= row < row_count(batches[b]),
    ensures
        records.len() == rows_ahead(batches, batches.len() as int),
        rows_ahead(batches, b) + row < records.len(),
        ({
            let record = records[rows_ahead(batches, b) + row];
            &&& holds_int(batches[b], "start_ns"@, row, record.start)
            &&& holds_int(batches[b], "end_ns"@, row, record.end)
            &&& holds_int(batches[b], "device_id"@, row, record.device)
            &&& holds_int(batches[b], "context_id"@, row, record.context)
            &&& holds_int(batches[b], "stream_id"@, row, record.stream)
            &&& holds_int(batches[b], "correlation_id"@, row, record.correlation)
            &&& holds_int(batches[b], "global_pid"@, row, record.global_pid)
            &&& holds_int(batches[b], "grid_x"@, row, record.grid@[0])
            &&& holds_int(batches[b], "grid_y"@, row, record.grid@[1])
            &&& holds_int(batches[b], "grid_z"@, row, record.grid@[2])
            &&& holds_int(batches[b], "block_x"@, row, record.block@[0])
            &&& holds_int(batches[b], "block_y"@, row, record.block@[1])
            &&& holds_int(batches[b], "block_z"@, row, record.block@[2])
            &&& holds_text(batches[b], "kernel_name"@, row, record.name@)
            &&& record.grid@.len() == 3
            &&& record.block@.len() == 3
            &&& record.sequence == 0
            &&& record.event_id@.len() == 0
            &&& record.launch_call is None
            &&& record.nvtx_regions@.len() == 0
        }),
{
    lemma_ahead(batches, b);
    lemma_ahead(batches, batches.len() as int);
    lemma_within(batches, b, row);
    lemma_kernels_load(batches);
    assert(kernel_ints(batches[b]) && has_texts(batches[b], "kernel_name"@));
    assert(kernel_batch_read(batches, records, b));
    let record = kernel_of_row(batches, records, b, row);
    assert(kernel_read(batches[b], row, record));
}

/// The columns of integers that the table of calls needs.
pub open spec fn call_ints(batch: Batch) -> bool {
    &&& has_ints(batch, "start_ns"@)
    &&& has_ints(batch, "end_ns"@)
    &&& has_ints(batch, "global_tid"@)
    &&& has_ints(batch, "correlation_id"@)
}

/// The table of calls loads exactly if each of its batches has these columns, and the
/// strings too where it has rows.
pub proof fn lemma_calls_load(batches: Seq<Batch>)
    ensures
        first_problem(batches, call_columns(), "runtime_name"@) is None <==> forall|b: int|
            0 <= b < batches.len() ==> call_ints(#[trigger] batches[b]) && (row_count(batches[b]) == 0 || has_texts(
                batches[b],
                "runtime_name"@,
            )),
{
    lemma_first_problem_is_first(batches, call_columns(), "runtime_name"@);
    assert forall|batch: Batch| #[trigger] all_ints(batch, call_columns()) == call_ints(batch) by {
        lemma_call_columns(batch);
    }
    if forall|b: int| 0 <= b < batches.len() ==> readable(#[trigger] batches[b], call_columns(), "runtime_name"@) {
        assert forall|b: int| 0 <= b < batches.len() implies call_ints(#[trigger] batches[b]) && (row_count(batches[b])
            == 0 || has_texts(batches[b], "runtime_name"@)) by {
            assert(readable(batches[b], call_columns(), "runtime_name"@));
        }
    } else {
        let b = choose|b: int|
            0 <= b < batches.len() && !readable(#[trigger] batches[b], call_columns(), "runtime_name"@);
        assert(!(call_ints(batches[b]) && (row_count(batches[b]) == 0 || has_texts(batches[b], "runtime_name"@))));
    }
}

proof fn lemma_call_columns(batch: Batch)
    ensures
        all_ints(batch, call_columns()) == call_ints(batch),
{
    let names = call_columns();
    assert(names.len() == 4);
    assert(names[0] == "start_ns"@);
    assert(names[1] == "end_ns"@);
    assert(names[2] == "global_tid"@);
    assert(names[3] == "correlation_id"@);
    if call_ints(batch) {
        assert forall|j: int| 0 <= j < names.len() implies has_ints(batch, #[trigger] names[j]) by {
            assert(j == 0 || j == 1 || j == 2 || j == 3);
        }
    }
}

/// Row for row, the loaded calls hold what the columns of their table hold, and nothing
/// that is found out later.
pub proof fn lemma_loaded_calls(batches: Seq<Batch>, records: Seq<RuntimeCall>, b: int, row: int)
    requires
        first_problem(batches, call_columns(), "runtime_name"@) is None,
        records.len() == rows_before(batches, batches.len() as int),
        forall|b: int| 0 <= b < batches.len() ==> #[trigger] call_batch_read(batches, records, b),
        0 <= b < batches.len(),
        0 <= row < row_count(batches[b]),
    ensures
        records.len() == rows_ahead(batches, batches.len() as int),
        rows_ahead(batches, b) + row < records.len(),
        ({
            let record = records[rows_ahead(batches, b) + row];
            &&& holds_int(batches[b], "start_ns"@, row, record.start)
            &&& holds_int(batches[b], "end_ns"@, row, record.end)
            &&& holds_int(batches[b], "global_tid"@, row, record.global_tid)
            &&& holds_int(batches[b], "correlation_id"@, row, record.correlation)
            &&& holds_text(batches[b], "runtime_name"@, row, record.name@)
            &&& record.event_id is None
        }),
{
    lemma_ahead(batches, b);
    lemma_ahead(batches, batches.len() as int);
    lemma_within(batches, b, row);
    lemma_calls_load(batches);
    assert(call_ints(batches[b]) && has_texts(batches[b], "runtime_name"@));
    assert(call_batch_read(batches, records, b));
    let record = call_of_row(batches, records, b, row);
    assert(call_read(batches[b], row, record));
}

/// The columns of integers that the table of copies needs.
pub open spec fn copy_ints(batch: Batch) -> bool {
    &&& has_ints(batch, "start_ns"@)
    &&& has_ints(batch, "end_ns"@)
    &&& has_ints(batch, "device_id"@)
    &&& has_ints(batch, "context_id"@)
    &&& has_ints(batch, "stream_id"@)
    &&& has_ints(batch, "correlation_id"@)
    &&& has_ints(batch, "global_pid"@)
    &&& has_ints(batch, "bytes"@)
    &&& has_ints(batch, "copy_kind"@)
    &&& has_ints(batch, "src_kind"@)
    &&& has_ints(batch, "dst_kind"@)
    &&& has_ints(batch, "src_device_id"@)
    &&& has_ints(batch, "src_context_id"@)
    &&& has_ints(batch, "dst_device_id"@)
    &&& has_ints(batch, "dst_context_id"@)
    &&& has_ints(batch, "graph_node_id"@)
    &&& has_ints(batch, "copy_count"@)
}

/// The table of copies loads exactly if each of its batches has these columns, and the
/// strings too where it has rows.
pub proof fn lemma_copies_load(batches: Seq<Batch>)
    ensures
        first_problem(batches, copy_columns(), "virtual_address"@) is None <==> forall|b: int|
            0 <= b < batches.len() ==> copy_ints(#[trigger] batches[b]) && (row_count(batches[b]) == 0 || has_texts(
                batches[b],
                "virtual_address"@,
            )),
{
    lemma_first_problem_is_first(batches, copy_columns(), "virtual_address"@);
    assert forall|batch: Batch| #[trigger] all_ints(batch, copy_columns()) == copy_ints(batch) by {
        lemma_copy_columns(batch);
    }
    if forall|b: int| 0 <= b < batches.len() ==> readable(#[trigger] batches[b], copy_columns(), "virtual_address"@) {
        assert forall|b: int| 0 <= b < batches.len() implies copy_ints(#[trigger] batches[b]) && (row_count(batches[b])
            == 0 || has_texts(batches[b], "virtual_address"@)) by {
            assert(readable(batches[b], copy_columns(), "virtual_address"@));
        }
    } else {
        let b = choose|b: int|
            0 <= b < batches.len() && !readable(#[trigger] batches[b], copy_columns(), "virtual_address"@);
        assert(!(copy_ints(batches[b]) && (row_count(batches[b]) == 0 || has_texts(batches[b], "virtual_address"@))));
    }
}

proof fn lemma_copy_columns(batch: Batch)
    ensures
        all_ints(batch, copy_columns()) == copy_ints(batch),
{
    let names = copy_columns();
    assert(names.len() == 17);
    assert(names[0] == "start_ns"@);
    assert(names[1] == "end_ns"@);
    assert(names[2] == "device_id"@);
    assert(names[3] == "context_id"@);
    assert(names[4] == "stream_id"@);
    assert(names[5] == "correlation_id"@);
    assert(names[6] == "global_pid"@);
    assert(names[7] == "bytes"@);
    assert(names[8] == "copy_kind"@);
    assert(names[9] == "src_kind"@);
    assert(names[10] == "dst_kind"@);
    assert(names[11] == "src_device_id"@);
    assert(names[12] == "src_context_id"@);
    assert(names[13] == "dst_device_id"@);
    assert(names[14] == "dst_context_id"@);
    assert(names[15] == "graph_node_id"@);
    assert(names[16] == "copy_count"@);
    if copy_ints(batch) {
        assert forall|j: int| 0 <= j < names.len() implies has_ints(batch, #[trigger] names[j]) by {
            assert(j == 0 || j == 1 || j == 2 || j == 3 || j == 4 || j == 5 || j == 6 || j == 7 || j == 8 || j == 9 || j == 10 || j == 11 || j == 12 || j == 13 || j == 14 || j == 15 || j == 16);
        }
    }
}

/// Row for row, the loaded copies hold what the columns of their table hold, and nothing
/// that is found out later.
pub proof fn lemma_loaded_copies(batches: Seq<Batch>, records: Seq<Memcpy>, b: int, row: int)
    requires
        first_problem(batches, copy_columns(), "virtual_address"@) is None,
        records.len() == rows_before(batches, batches.len() as int),
        forall|b: int| 0 <= b < batches.len() ==> #[trigger] copy_batch_read(batches, records, b),
        0 <= b < batches.len(),
        0 <= row < row_count(batches[b]),
    ensures
        records.len() == rows_ahead(batches, batches.len() as int),
        rows_ahead(batches, b) + row < records.len(),
        ({
            let record = records[rows_ahead(batches, b) + row];
            &&& holds_int(batches[b], "start_ns"@, row, record.start)
            &&& holds_int(batches[b], "end_ns"@, row, record.end)
            &&& holds_int(batches[b], "device_id"@, row, record.device)
            &&& holds_int(batches[b], "context_id"@, row, record.context)
            &&& holds_int(batches[b], "stream_id"@, row, record.stream)
            &&& holds_int(batches[b], "correlation_id"@, row, record.correlation)
            &&& holds_int(batches[b], "global_pid"@, row, record.global_pid)
            &&& exists|n: i64| #[trigger] holds_int(batches[b], "bytes"@, row, n) && record.bytes == n as u64
            &&& holds_int(batches[b], "copy_kind"@, row, record.copy_kind)
            &&& holds_int(batches[b], "src_kind"@, row, record.src_kind)
            &&& holds_int(batches[b], "dst_kind"@, row, record.dst_kind)
            &&& holds_int(batches[b], "src_device_id"@, row, record.src_device)
            &&& holds_int(batches[b], "src_context_id"@, row, record.src_context)
            &&& holds_int(batches[b], "dst_device_id"@, row, record.dst_device)
            &&& holds_int(batches[b], "dst_context_id"@, row, record.dst_context)
            &&& holds_int(batches[b], "graph_node_id"@, row, record.graph_node)
            &&& exists|n: i64| #[trigger] holds_int(batches[b], "copy_count"@, row, n) && record.copy_count == n as u64
            &&& holds_text(batches[b], "virtual_address"@, row, record.virtual_address@)
            &&& record.event_id@.len() == 0
            &&& record.launch_call is None
        }),
{
    lemma_ahead(batches, b);
    lemma_ahead(batches, batches.len() as int);
    lemma_within(batches, b, row);
    lemma_copies_load(batches);
    assert(copy_ints(batches[b]) && has_texts(batches[b], "virtual_address"@));
    assert(copy_batch_read(batches, records, b));
    let record = copy_of_row(batches, records, b, row);
    assert(copy_read(batches[b], row, record));
    assert(holds_int(batches[b], "bytes"@, row, columns(batches[b])["bytes"@]->Ints_0[row]));
    assert(holds_int(batches[b], "copy_count"@, row, columns(batches[b])["copy_count"@]->Ints_0[row]));
}

/// The columns of integers that the table of ranges needs.
pub open spec fn range_ints(batch: Batch) -> bool {
    &&& has_ints(batch, "start_ns"@)
    &&& has_ints(batch, "end_ns"@)
    &&& has_ints(batch, "global_tid"@)
}

/// The table of ranges loads exactly if each of its batches has these columns, and the
/// strings too where it has rows.
pub proof fn lemma_ranges_load(batches: Seq<Batch>)
    ensures
        first_problem(batches, range_columns(), "nvtx_name"@) is None <==> forall|b: int|
            0 <= b < batches.len() ==> range_ints(#[trigger] batches[b]) && (row_count(batches[b]) == 0 || has_texts(
                batches[b],
                "nvtx_name"@,
            )),
{
    lemma_first_problem_is_first(batches, range_columns(), "nvtx_name"@);
    assert forall|batch: Batch| #[trigger] all_ints(batch, range_columns()) == range_ints(batch) by {
        lemma_range_columns(batch);
    }
    if forall|b: int| 0 <= b < batches.len() ==> readable(#[trigger] batches[b], range_columns(), "nvtx_name"@) {
        assert forall|b: int| 0 <= b < batches.len() implies range_ints(#[trigger] batches[b]) && (row_count(batches[b])
            == 0 || has_texts(batches[b], "nvtx_name"@)) by {
            assert(readable(batches[b], range_columns(), "nvtx_name"@));
        }
    } else {
        let b = choose|b: int|
            0 <= b < batches.len() && !readable(#[trigger] batches[b], range_columns(), "nvtx_name"@);
        assert(!(range_ints(batches[b]) && (row_count(batches[b]) == 0 || has_texts(batches[b], "nvtx_name"@))));
    }
}

proof fn lemma_range_columns(batch: Batch)
    ensures
        all_ints(batch, range_columns()) == range_ints(batch),
{
    let names = range_columns();
    assert(names.len() == 3);
    assert(names[0] == "start_ns"@);
    assert(names[1] == "end_ns"@);
    assert(names[2] == "global_tid"@);
    if range_ints(batch) {
        assert forall|j: int| 0 <= j < names.len() implies has_ints(batch, #[trigger] names[j]) by {
            assert(j == 0 || j == 1 || j == 2);
        }
    }
}

/// Row for row, the loaded ranges hold what the columns of their table hold, and nothing
/// that is found out later.
pub proof fn lemma_loaded_ranges(batches: Seq<Batch>, records: Seq<NvtxRange>, b: int, row: int)
    requires
        first_problem(batches, range_columns(), "nvtx_name"@) is None,
        records.len() == rows_before(batches, batches.len() as int),
        forall|b: int| 0 <= b < batches.len() ==> #[trigger] range_batch_read(batches, records, b),
        0 <= b < batches.len(),
        0 <= row < row_count(batches[b]),
    ensures
        records.len() == rows_ahead(batches, batches.len() as int),
        rows_ahead(batches, b) + row < records.len(),
        ({
            let record = records[rows_ahead(batches, b) + row];
            &&& holds_int(batches[b], "start_ns"@, row, record.start)
            &&& holds_int(batches[b], "end_ns"@, row, record.end)
            &&& exists|n: i64|
                #[trigger] holds_int(batches[b], "global_tid"@, row, n) && record.pid == pid_of(n) && record.tid == tid_of(n)
            &&& holds_text(batches[b], "nvtx_name"@, row, record.name@)
            &&& forall|d: i64| !record.kernel_bounds@.contains_key(d)
        }),
{
    lemma_ahead(batches, b);
    lemma_ahead(batches, batches.len() as int);
    lemma_within(batches, b, row);
    lemma_ranges_load(batches);
    assert(range_ints(batches[b]) && has_texts(batches[b], "nvtx_name"@));
    assert(range_batch_read(batches, records, b));
    let record = range_of_row(batches, records, b, row);
    assert(range_read(batches[b], row, record));
    assert(holds_int(batches[b], "global_tid"@, row, columns(batches[b])["global_tid"@]->Ints_0[row]));
}

proof fn lemma_within(batches: Seq<Batch>, b: int, row: int)
    requires
        0 <= b < batches.len(),
        0 <= row < row_count(batches[b]),
    ensures
        rows_ahead(batches, b) + row < rows_ahead(batches, batches.len() as int),
{
    lemma_ahead_grows(batches, b + 1, batches.len() as int);
}

proof fn lemma_ahead_grows(batches: Seq<Batch>, a: int, b: int)
    requires
        0 <= a <= b,
    ensures
        rows_ahead(batches, a) <= rows_ahead(batches, b),
    decreases b,
{
    if a < b {
        lemma_ahead_grows(batches, a, b - 1);
    }
}

} // verus!
