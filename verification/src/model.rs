//! The records of a trace and the fixed numbers of the timeline.
use std::collections::BTreeMap;
use vstd::prelude::*;

verus! {

/// Process and thread numbers are packed into global identifiers in this radix.
pub const GLOBAL_ID_RADIX: i64 = 0x1000000;

/// The first identifier given to a GPU process of the timeline.
pub const GPU_PROCESS_ID_BASE: i64 = 2_000_000_000;

/// The first number of each series of arrows of a report.
pub const LAUNCH_FLOW_ID_BASE: u64 = 0;

pub const MEMCPY_FLOW_ID_BASE: u64 = 1;

pub const CORE_LAUNCH_FLOW_ID_BASE: u64 = 2;

pub const PCIE_USAGE_FLOW_ID_BASE: u64 = 3;

/// A kernel execution on a GPU.
#[derive(Debug)]
pub struct Kernel {
    pub start: i64,
    pub end: i64,
    pub device: i64,
    pub context: i64,
    pub stream: i64,
    pub correlation: i64,
    pub global_pid: i64,
    pub name: String,
    pub grid: [i64; 3],
    pub block: [i64; 3],
    pub sequence: u64,
    pub event_id: String,
    pub launch_call: Option<usize>,
    pub nvtx_regions: Vec<String>,
}

/// A memory copy performed by a GPU.
#[derive(Debug)]
pub struct Memcpy {
    pub start: i64,
    pub end: i64,
    pub device: i64,
    pub context: i64,
    pub stream: i64,
    pub correlation: i64,
    pub global_pid: i64,
    pub bytes: u64,
    pub copy_kind: i64,
    pub src_kind: i64,
    pub dst_kind: i64,
    pub src_device: i64,
    pub src_context: i64,
    pub dst_device: i64,
    pub dst_context: i64,
    pub graph_node: i64,
    pub virtual_address: String,
    pub copy_count: u64,
    pub event_id: String,
    pub launch_call: Option<usize>,
}

/// A CUDA Runtime call made by a CPU thread.
#[derive(Debug)]
pub struct RuntimeCall {
    pub start: i64,
    pub end: i64,
    pub global_tid: i64,
    pub correlation: i64,
    pub name: String,
    pub event_id: Option<String>,
}

/// An NVTX push/pop range; `kernel_bounds` maps a device to the envelope of the
/// kernels launched from inside the range.
#[derive(Debug)]
pub struct NvtxRange {
    pub start: i64,
    pub end: i64,
    pub name: String,
    pub pid: i64,
    pub tid: i64,
    pub kernel_bounds: BTreeMap<i64, (i64, i64)>,
}

/// Division that rounds toward zero.
pub open spec fn quotient(a: int, b: int) -> int {
    if a >= 0 {
        a / b
    } else {
        -((-a) / b)
    }
}

/// The remainder of the division that rounds toward zero.
pub open spec fn remainder(a: int, b: int) -> int {
    if a >= 0 {
        a % b
    } else {
        -((-a) % b)
    }
}

/// The process number inside a global identifier.
pub open spec fn pid_of(global_id: i64) -> i64 {
    remainder(quotient(global_id as int, 0x1000000), 0x1000000) as i64
}

/// The thread number inside a global identifier.
pub open spec fn tid_of(global_id: i64) -> i64 {
    remainder(global_id as int, 0x1000000) as i64
}

pub fn source_pid(global_pid: i64) -> (pid: i64)
    ensures
        pid == pid_of(global_pid),
{
    (global_pid / GLOBAL_ID_RADIX) % GLOBAL_ID_RADIX
}

pub fn source_tid(global_tid: i64) -> (tid: i64)
    ensures
        tid == tid_of(global_tid),
{
    global_tid % GLOBAL_ID_RADIX
}

/// A 64-bit difference of two instants, in two's complement.
pub open spec fn elapsed(later: int, earlier: int) -> i64 {
    (later - earlier) as i64
}

pub fn nanos_between(later: i64, earlier: i64) -> (ns: i64)
    ensures
        ns == elapsed(later as int, earlier as int),
        i64::MIN <= later - earlier <= i64::MAX ==> ns == later - earlier,
{
    (later as i128 - earlier as i128) as i64
}

pub open spec fn smaller(a: i64, b: i64) -> i64 {
    if a <= b {
        a
    } else {
        b
    }
}

pub open spec fn larger(a: i64, b: i64) -> i64 {
    if a >= b {
        a
    } else {
        b
    }
}

/// Where a flow arrow leaves the API slice.
pub open spec fn flow_origin(call: RuntimeCall, activity_start: i64) -> i64 {
    larger(smaller(elapsed(call.end as int, 1), elapsed(activity_start as int, 1)), call.start)
}

/// The instant inside the API slice from which the arrow to an activity starts:
/// just before the call ends and before the activity starts, but not before the call.
pub fn flow_start_ns(call: &RuntimeCall, activity_start: i64) -> (ns: i64)
    ensures
        ns == flow_origin(*call, activity_start),
        ns >= call.start,
        activity_start > call.start ==> ns < activity_start,
{
    let before_end: i64 = nanos_between(call.end, 1);
    let before_activity: i64 = nanos_between(activity_start, 1);
    let earliest: i64 = if before_end <= before_activity {
        before_end
    } else {
        before_activity
    };
    if earliest >= call.start {
        earliest
    } else {
        call.start
    }
}

/// Where a flow arrow arrives in the slice of an activity.
pub open spec fn flow_target(start: i64, end: i64) -> i64 {
    smaller((start + 1) as i64, end)
}

pub fn flow_end_ns(start: i64, end: i64) -> (ns: i64)
    ensures
        ns == flow_target(start, end),
{
    let after_start: i64 = (start as i128 + 1) as i64;
    if after_start <= end {
        after_start
    } else {
        end
    }
}

/// The identifier at a position of a numbered series, in two's complement.
pub open spec fn numbered(base: i64, index: int) -> i64 {
    (base + index) as i64
}

pub fn number_at(base: i64, index: usize) -> (id: i64)
    ensures
        id == numbered(base, index as int),
        base + index <= i64::MAX ==> id == base + index,
{
    (base as i128 + index as i128) as i64
}

} // verus!
