//! The tables of an Nsight Systems export.
use vstd::prelude::*;

verus! {

/// A table of the export.
#[derive(Debug, Clone, Copy, PartialEq, Eq, Structural)]
pub enum Table {
    Kernels,
    Runtime,
    Strings,
    Memcpy,
    Nvtx,
}

pub open spec fn table_name(table: Table) -> Seq<char> {
    match table {
        Table::Kernels => "kernels"@,
        Table::Runtime => "runtime"@,
        Table::Strings => "strings"@,
        Table::Memcpy => "memcpy"@,
        Table::Nvtx => "nvtx"@,
    }
}

pub open spec fn table_file(table: Table) -> Seq<char> {
    match table {
        Table::Kernels => "CUPTI_ACTIVITY_KIND_KERNEL.parquet"@,
        Table::Runtime => "CUPTI_ACTIVITY_KIND_RUNTIME.parquet"@,
        Table::Strings => "StringIds.parquet"@,
        Table::Memcpy => "CUPTI_ACTIVITY_KIND_MEMCPY.parquet"@,
        Table::Nvtx => "NVTX_EVENTS.parquet"@,
    }
}

/// What to tell the user when a table is absent.
pub open spec fn absence_text(table: Table) -> Option<Seq<char>> {
    match table {
        Table::Kernels => Some("warning: CUPTI_ACTIVITY_KIND_KERNEL.parquet is absent"@),
        Table::Runtime => Some(
            "warning: CUPTI_ACTIVITY_KIND_RUNTIME.parquet is absent; API flows are unavailable"@,
        ),
        Table::Strings => Some("warning: StringIds.parquet is absent; using numeric fallback event names"@),
        Table::Memcpy => None,
        Table::Nvtx => Some(
            "warning: NVTX_EVENTS.parquet is absent; exporting CUDA timelines without NVTX"@,
        ),
    }
}

/// Kernels in the order in which they start; one without a name in the string table is
/// named by its number.
pub const KERNEL_QUERY: &'static str = r#"
    SELECT
        CAST(k.start AS BIGINT) AS start_ns,
        CAST(k."end" AS BIGINT) AS end_ns,
        CAST(k."deviceId" AS BIGINT) AS device_id,
        CAST(k."contextId" AS BIGINT) AS context_id,
        CAST(k."streamId" AS BIGINT) AS stream_id,
        CAST(k."correlationId" AS BIGINT) AS correlation_id,
        CAST(k."globalPid" AS BIGINT) AS global_pid,
        COALESCE(s.value, CONCAT('kernel_', CAST(k."shortName" AS VARCHAR))) AS kernel_name,
        CAST(k."gridX" AS BIGINT) AS grid_x,
        CAST(k."gridY" AS BIGINT) AS grid_y,
        CAST(k."gridZ" AS BIGINT) AS grid_z,
        CAST(k."blockX" AS BIGINT) AS block_x,
        CAST(k."blockY" AS BIGINT) AS block_y,
        CAST(k."blockZ" AS BIGINT) AS block_z
    FROM kernels k
    LEFT JOIN strings s ON CAST(k."shortName" AS BIGINT) = CAST(s.id AS BIGINT)
    ORDER BY start_ns, end_ns, correlation_id
"#;

/// Runtime calls in the order in which they start; one without a name in the string
/// table is named by its number.
pub const RUNTIME_QUERY: &'static str = r#"
    SELECT
        CAST(r.start AS BIGINT) AS start_ns,
        CAST(r."end" AS BIGINT) AS end_ns,
        CAST(r."globalTid" AS BIGINT) AS global_tid,
        CAST(r."correlationId" AS BIGINT) AS correlation_id,
        COALESCE(s.value, CONCAT('cuda_api_', CAST(r."nameId" AS VARCHAR))) AS runtime_name
    FROM runtime r
    LEFT JOIN strings s ON CAST(r."nameId" AS BIGINT) = CAST(s.id AS BIGINT)
    ORDER BY start_ns, end_ns, correlation_id
"#;

/// Copies between host and devices in the order in which they start; devices, contexts
/// and graph nodes that are not recorded are -1.
pub const MEMCPY_QUERY: &'static str = r#"
    SELECT
        CAST(start AS BIGINT) AS start_ns,
        CAST("end" AS BIGINT) AS end_ns,
        CAST("deviceId" AS BIGINT) AS device_id,
        CAST("contextId" AS BIGINT) AS context_id,
        CAST("streamId" AS BIGINT) AS stream_id,
        CAST("correlationId" AS BIGINT) AS correlation_id,
        CAST("globalPid" AS BIGINT) AS global_pid,
        CAST(bytes AS BIGINT) AS bytes,
        CAST("copyKind" AS BIGINT) AS copy_kind,
        CAST("srcKind" AS BIGINT) AS src_kind,
        CAST("dstKind" AS BIGINT) AS dst_kind,
        COALESCE(CAST("srcDeviceId" AS BIGINT), -1) AS src_device_id,
        COALESCE(CAST("srcContextId" AS BIGINT), -1) AS src_context_id,
        COALESCE(CAST("dstDeviceId" AS BIGINT), -1) AS dst_device_id,
        COALESCE(CAST("dstContextId" AS BIGINT), -1) AS dst_context_id,
        COALESCE(CAST("graphNodeId" AS BIGINT), -1) AS graph_node_id,
        COALESCE(CAST("virtualAddress" AS VARCHAR), '0') AS virtual_address,
        COALESCE(CAST("copyCount" AS BIGINT), 1) AS copy_count
    FROM memcpy
    WHERE CAST("copyKind" AS BIGINT) IN (1, 2, 3, 8, 11, 12, 13)
    ORDER BY start_ns, end_ns, correlation_id
"#;

/// Push/pop ranges that have ended, in the order in which they start; a range without
/// text of its own is named by its string table entry.
pub const NVTX_QUERY: &'static str = r#"
    SELECT
        CAST(n.start AS BIGINT) AS start_ns,
        CAST(n."end" AS BIGINT) AS end_ns,
        COALESCE(n.text, s.value, 'NVTX') AS nvtx_name,
        CAST(n."globalTid" AS BIGINT) AS global_tid
    FROM nvtx n
    LEFT JOIN strings s ON CAST(n."textId" AS BIGINT) = CAST(s.id AS BIGINT)
    WHERE CAST(n."eventType" AS BIGINT) = 59 AND n."end" IS NOT NULL
    ORDER BY start_ns, end_ns
"#;

/// The query that reads the records of a table. Strings are read with the records that
/// they name.
pub open spec fn table_query(table: Table) -> Option<Seq<char>> {
    match table {
        Table::Kernels => Some(KERNEL_QUERY@),
        Table::Runtime => Some(RUNTIME_QUERY@),
        Table::Strings => None,
        Table::Memcpy => Some(MEMCPY_QUERY@),
        Table::Nvtx => Some(NVTX_QUERY@),
    }
}

impl Table {
    /// The name under which the table is queried.
    pub fn name(&self) -> (name: &'static str)
        ensures
            name@ == table_name(*self),
    {
        match self {
            Table::Kernels => "kernels",
            Table::Runtime => "runtime",
            Table::Strings => "strings",
            Table::Memcpy => "memcpy",
            Table::Nvtx => "nvtx",
        }
    }

    /// The file that holds the table.
    pub fn file(&self) -> (file: &'static str)
        ensures
            file@ == table_file(*self),
    {
        match self {
            Table::Kernels => "CUPTI_ACTIVITY_KIND_KERNEL.parquet",
            Table::Runtime => "CUPTI_ACTIVITY_KIND_RUNTIME.parquet",
            Table::Strings => "StringIds.parquet",
            Table::Memcpy => "CUPTI_ACTIVITY_KIND_MEMCPY.parquet",
            Table::Nvtx => "NVTX_EVENTS.parquet",
        }
    }

    /// The query that reads the records of the table.
    pub fn query(&self) -> (text: Option<&'static str>)
        ensures
            match text {
                Some(t) => Some(t@) == table_query(*self),
                None => table_query(*self) is None,
            },
    {
        match self {
            Table::Kernels => Some(KERNEL_QUERY),
            Table::Runtime => Some(RUNTIME_QUERY),
            Table::Strings => None,
            Table::Memcpy => Some(MEMCPY_QUERY),
            Table::Nvtx => Some(NVTX_QUERY),
        }
    }

    /// The warning for an absent table; a trace without copies is an ordinary one.
    pub fn absence_warning(&self) -> (text: Option<&'static str>)
        ensures
            match text {
                Some(t) => Some(t@) == absence_text(*self),
                None => absence_text(*self) is None,
            },
    {
        match self {
            Table::Kernels => Some("warning: CUPTI_ACTIVITY_KIND_KERNEL.parquet is absent"),
            Table::Runtime => Some(
                "warning: CUPTI_ACTIVITY_KIND_RUNTIME.parquet is absent; API flows are unavailable",
            ),
            Table::Strings => Some("warning: StringIds.parquet is absent; using numeric fallback event names"),
            Table::Memcpy => None,
            Table::Nvtx => Some("warning: NVTX_EVENTS.parquet is absent; exporting CUDA timelines without NVTX"),
        }
    }
}

/// The tables in the order in which they are looked for.
pub fn input_tables() -> (tables: Vec<Table>)
    ensures
        tables@ == seq![Table::Kernels, Table::Runtime, Table::Strings, Table::Memcpy, Table::Nvtx],
{
    vec![Table::Kernels, Table::Runtime, Table::Strings, Table::Memcpy, Table::Nvtx]
}

/// Which tables an export holds.
#[derive(Debug, Clone, Copy, PartialEq, Eq, Structural)]
pub struct TableAvailability {
    pub kernels: bool,
    pub runtime: bool,
    pub memcpy: bool,
    pub nvtx: bool,
    pub strings: bool,
}

impl TableAvailability {
    pub open spec fn holds(self, table: Table) -> bool {
        match table {
            Table::Kernels => self.kernels,
            Table::Runtime => self.runtime,
            Table::Strings => self.strings,
            Table::Memcpy => self.memcpy,
            Table::Nvtx => self.nvtx,
        }
    }

    /// No table has been found yet.
    pub fn none() -> (found: TableAvailability)
        ensures
            forall|t: Table| !#[trigger] found.holds(t),
    {
        TableAvailability { kernels: false, runtime: false, memcpy: false, nvtx: false, strings: false }
    }

    /// Notes that a table has been found.
    pub fn mark(&mut self, table: Table)
        ensures
            forall|t: Table| #[trigger] final(self).holds(t) == (old(self).holds(t) || t == table),
    {
        match table {
            Table::Kernels => {
                self.kernels = true;
            },
            Table::Runtime => {
                self.runtime = true;
            },
            Table::Strings => {
                self.strings = true;
            },
            Table::Memcpy => {
                self.memcpy = true;
            },
            Table::Nvtx => {
                self.nvtx = true;
            },
        }
    }
}

} // verus!
