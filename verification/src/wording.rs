//! How tables and errors are worded.
use crate::batches::{column_error_text, ColumnProblem};
use crate::slices::{emit_error_text, EmitError};
use crate::tables::{
    absence_text, table_file, table_name, table_query, Table, TableAvailability, KERNEL_QUERY, MEMCPY_QUERY, NVTX_QUERY,
    RUNTIME_QUERY,
};
use crate::trace::{trace_error_text, TraceError};
use vstd::prelude::*;

verus! {

/// Every table is read from the Parquet file that the export gives it.
pub proof fn lemma_table_files(table: Table)
    ensures
        table_file(table) == (match table {
            Table::Kernels => "CUPTI_ACTIVITY_KIND_KERNEL"@,
            Table::Runtime => "CUPTI_ACTIVITY_KIND_RUNTIME"@,
            Table::Memcpy => "CUPTI_ACTIVITY_KIND_MEMCPY"@,
            Table::Nvtx => "NVTX_EVENTS"@,
            Table::Strings => "StringIds"@,
        }) + ".parquet"@,
{
    reveal_strlit(".parquet");
    match table {
        Table::Kernels => {
            reveal_strlit("CUPTI_ACTIVITY_KIND_KERNEL");
            reveal_strlit("CUPTI_ACTIVITY_KIND_KERNEL.parquet");
        },
        Table::Runtime => {
            reveal_strlit("CUPTI_ACTIVITY_KIND_RUNTIME");
            reveal_strlit("CUPTI_ACTIVITY_KIND_RUNTIME.parquet");
        },
        Table::Memcpy => {
            reveal_strlit("CUPTI_ACTIVITY_KIND_MEMCPY");
            reveal_strlit("CUPTI_ACTIVITY_KIND_MEMCPY.parquet");
        },
        Table::Nvtx => {
            reveal_strlit("NVTX_EVENTS");
            reveal_strlit("NVTX_EVENTS.parquet");
        },
        Table::Strings => {
            reveal_strlit("StringIds");
            reveal_strlit("StringIds.parquet");
        },
    }
}

/// The warning for an absent table names its file; only copies may be absent silently.
pub proof fn lemma_absence_warnings(table: Table)
    ensures
        absence_text(table) is None <==> table is Memcpy,
        absence_text(table) matches Some(text) ==> ("warning: "@ + table_file(table) + " is absent"@).is_prefix_of(text),
{
    reveal_strlit("warning: ");
    reveal_strlit(" is absent");
    match table {
        Table::Kernels => {
            reveal_strlit("CUPTI_ACTIVITY_KIND_KERNEL.parquet");
            reveal_strlit("warning: CUPTI_ACTIVITY_KIND_KERNEL.parquet is absent");
        },
        Table::Runtime => {
            reveal_strlit("CUPTI_ACTIVITY_KIND_RUNTIME.parquet");
            reveal_strlit("warning: CUPTI_ACTIVITY_KIND_RUNTIME.parquet is absent; API flows are unavailable");
        },
        Table::Memcpy => {},
        Table::Nvtx => {
            reveal_strlit("NVTX_EVENTS.parquet");
            reveal_strlit("warning: NVTX_EVENTS.parquet is absent; exporting CUDA timelines without NVTX");
        },
        Table::Strings => {
            reveal_strlit("StringIds.parquet");
            reveal_strlit("warning: StringIds.parquet is absent; using numeric fallback event names");
        },
    }
    if absence_text(table) is Some {
        let text = absence_text(table)->0;
        let start = "warning: "@ + table_file(table) + " is absent"@;
        assert(start =~= text.subrange(0, start.len() as int));
    }
}

/// Every table is queried under a name of its own, and all but the strings, which are
/// read with the records that they name, have a query.
pub proof fn lemma_table_queries(a: Table, b: Table)
    ensures
        a != b ==> table_name(a) != table_name(b),
        table_name(a) == (match a {
            Table::Kernels => "kernels"@,
            Table::Runtime => "runtime"@,
            Table::Strings => "strings"@,
            Table::Memcpy => "memcpy"@,
            Table::Nvtx => "nvtx"@,
        }),
        table_query(a) == (match a {
            Table::Kernels => Some(KERNEL_QUERY@),
            Table::Runtime => Some(RUNTIME_QUERY@),
            Table::Strings => None,
            Table::Memcpy => Some(MEMCPY_QUERY@),
            Table::Nvtx => Some(NVTX_QUERY@),
        }),
{
    reveal_strlit("kernels");
    reveal_strlit("runtime");
    reveal_strlit("strings");
    reveal_strlit("memcpy");
    reveal_strlit("nvtx");
    assert("kernels"@[0] == 'k');
    assert("runtime"@[0] == 'r');
    assert("strings"@[0] == 's');
    assert("memcpy"@[0] == 'm');
    assert("nvtx"@[0] == 'n');
}

/// What has been found of an export is noted for each table apart.
pub proof fn lemma_tables_are_noted_apart(found: TableAvailability, table: Table)
    ensures
        found.holds(table) == (match table {
            Table::Kernels => found.kernels,
            Table::Runtime => found.runtime,
            Table::Strings => found.strings,
            Table::Memcpy => found.memcpy,
            Table::Nvtx => found.nvtx,
        }),
{
}

/// An unreadable column is reported by its name and by what was expected of it.
pub proof fn lemma_column_errors(column: Seq<char>, problem: ColumnProblem)
    ensures
        match problem {
            ColumnProblem::Missing => column_error_text(column, problem) == "missing column "@ + column,
            ColumnProblem::NotInt64 => column_error_text(column, problem) == "column "@ + column + " is not Int64"@,
            ColumnProblem::NotText => column_error_text(column, problem) == "column "@ + column
                + " is neither Utf8 nor Utf8View"@,
        },
{
}

/// A failed conversion says what it failed for.
pub proof fn lemma_conversion_errors(e: TraceError)
    ensures
        match e {
            TraceError::NoEvents => trace_error_text(e)
                == "trace contains no CUDA kernel, memcpy, linked API, or NVTX ranges"@,
            TraceError::Unplaceable => trace_error_text(e) == "a record refers to a call or device without a track"@,
            TraceError::Emit(EmitError::KernelLaunch) => trace_error_text(e) == "kernel launch call has no event ID"@
                && emit_error_text(EmitError::KernelLaunch) == trace_error_text(e),
            TraceError::Emit(EmitError::CopyLaunch) => trace_error_text(e) == "memcpy API call has no event ID"@
                && emit_error_text(EmitError::CopyLaunch) == trace_error_text(e),
        },
{
}

} // verus!
