//! What the timeline shows of every call, kernel and copy.
use crate::devices::{direction_text, memory_text, slug};
use crate::emit::timeline_events;
use crate::event::{ArgView, EventView, ValueView};
use crate::hierarchy::lemma_primary_shown;
use crate::labels::{
    device_name, laned, lemma_call_called, lemma_copy_stream_called, lemma_core_called, lemma_kernel_stream_called,
    lemma_processes_are_called, lemma_usage_called, process_called, track_called,
};
use crate::laws::lemma_devices_listed;
use crate::model::{pid_of, tid_of, RuntimeCall};
use crate::naming::metadata_events;
use crate::order::ordered;
use crate::ranges::range_events;
use crate::scene::{
    call_devices, call_placed, call_tid, copy_stream_tid, core_tid, gpu_process, kernel_stream_tid, lemma_copies_placed,
    lemma_kernel_device_placed, placeable, primary, shown, Scene,
};
use crate::seqs::{concat, lemma_concat_at};
use crate::slices::{
    api_args, api_event, call_events, copy_args, copy_arrow, copy_arrows, copy_events, copy_flow_args, copy_slice,
    copy_slices, core_args, core_slice, kernel_args, kernel_events, kernel_process, launch_args, launch_arrows,
    lemma_launch_devices, pcie_arrow, pcie_arrows, stream_slice, usage_args, usage_slice, usage_tid,
};
use crate::text::{decimal, texts};
use vstd::prelude::*;

verus! {

/// One of the arguments has this key and value.
pub open spec fn has_arg(args: Seq<ArgView>, key: Seq<char>, value: ValueView) -> bool {
    exists|j: int| 0 <= j < args.len() && (#[trigger] args[j]).key == key && args[j].value == value
}

pub proof fn lemma_has(args: Seq<ArgView>, j: int)
    requires
        0 <= j < args.len(),
    ensures
        has_arg(args, args[j].key, args[j].value),
{
}

/// The texts of a list of strings.
pub open spec fn names_of(list: Seq<String>) -> Seq<Seq<char>> {
    Seq::new(list.len(), |j: int| list[j]@)
}

/// The identifier of the call that started an activity.
pub open spec fn launcher(s: Scene, launch: Option<usize>) -> Option<Seq<char>> {
    match launch {
        Some(c) => match s.runtime[c as int].event_id {
            Some(id) => Some(id@),
            None => None,
        },
        None => None,
    }
}

/// The bytes and the nanoseconds of what took time.
pub open spec fn rate_between(bytes: u64, start: i64, end: i64) -> ValueView {
    let ns = (end - start) as i64;
    ValueView::Rate(
        if ns > 0 {
            Some((bytes, ns))
        } else {
            None
        },
    )
}

pub open spec fn not_negative(ns: i64) -> i64 {
    if ns >= 0 {
        ns
    } else {
        0
    }
}

/// The event is a slice of this name and category over this interval.
pub open spec fn is_slice(s: Scene, e: EventView, name: Seq<char>, cat: Seq<char>, start: i64, end: i64) -> bool {
    &&& e.ph == "X"@
    &&& e.name == name
    &&& e.cat == cat
    &&& e.ts_ns == (start - s.origin_ns) as i64
    &&& e.dur_ns == Some((end - start) as i64)
    &&& e.id is None
    &&& e.bp is None
}

/// The event is under the device of the process, on a track of this name.
pub open spec fn is_on(s: Scene, e: EventView, device: i64, pid: i64, label: Seq<char>) -> bool {
    process_called(s, e.pid, device_name(device, pid)) && track_called(s, e.pid, e.tid, label)
}

/// Two events are the start and the finish of an arrow between the tracks of two slices.
pub open spec fn is_arrow(
    a: EventView,
    b: EventView,
    from: EventView,
    to: EventView,
    name: Seq<char>,
    cat: Seq<char>,
    leaves: i64,
    arrives: i64,
) -> bool {
    &&& a.ph == "s"@ && b.ph == "f"@
    &&& a.name == name && b.name == name
    &&& a.cat == cat && b.cat == cat
    &&& a.pid == from.pid && a.tid == from.tid
    &&& b.pid == to.pid && b.tid == to.tid
    &&& a.ts_ns == leaves && b.ts_ns == arrives
    &&& a.id is Some && b.id == a.id
    &&& a.bp is None && b.bp == Some("e"@)
    &&& a.args == b.args
    &&& a.dur_ns is None && b.dur_ns is None
}

/// When the arrow to an activity leaves its call: just before the call ends and the
/// activity starts, but not before the call starts.
pub open spec fn leaving(s: Scene, call: RuntimeCall, start: i64) -> i64 {
    let before_end = call.end - 1;
    let before_start = start - 1;
    let first = if before_end <= before_start {
        before_end
    } else {
        before_start
    };
    let t = if first >= call.start {
        first
    } else {
        call.start as int
    };
    (t - s.origin_ns) as i64
}

/// When the arrow arrives at the activity: just after it starts, but not after it ends.
pub open spec fn arriving(s: Scene, start: i64, end: i64) -> i64 {
    let t = if start + 1 <= end {
        start + 1
    } else {
        end as int
    };
    (t - s.origin_ns) as i64
}

/// The arguments of a call's slice under a device.
#[verifier::opaque]
pub open spec fn tells_call(s: Scene, c: int, device: i64, args: Seq<ArgView>) -> bool {
    &&& args.len() == 6
    &&& has_arg(args, "correlationId"@, ValueView::Int(s.runtime[c].correlation))
    &&& has_arg(args, "eventId"@, ValueView::Text(s.runtime[c].event_id->0@))
    &&& has_arg(args, "cpuStartNs"@, ValueView::Int(s.runtime[c].start))
    &&& has_arg(args, "cpuEndNs"@, ValueView::Int(s.runtime[c].end))
    &&& has_arg(args, "cpuDurationNs"@, ValueView::Int((s.runtime[c].end - s.runtime[c].start) as i64))
    &&& has_arg(args, "deviceId"@, ValueView::Int(device))
}

pub proof fn lemma_tells_call(s: Scene, c: int, device: i64)
    ensures
        tells_call(s, c, device, api_args(s.runtime[c], device)),
{
    reveal(tells_call);
    let args = api_args(s.runtime[c], device);
    lemma_has(args, 0);
    lemma_has(args, 1);
    lemma_has(args, 2);
    lemma_has(args, 3);
    lemma_has(args, 4);
    lemma_has(args, 5);
}

/// The arguments of a kernel's slice on its stream.
#[verifier::opaque]
pub open spec fn tells_kernel(s: Scene, k: int, args: Seq<ArgView>) -> bool {
    &&& args.len() == 14
    &&& has_arg(args, "correlationId"@, ValueView::Int(s.kernels[k].correlation))
    &&& has_arg(args, "contextId"@, ValueView::Int(s.kernels[k].context))
    &&& has_arg(args, "streamId"@, ValueView::Int(s.kernels[k].stream))
    &&& has_arg(args, "streamSequence"@, ValueView::Count(s.kernels[k].sequence))
    &&& has_arg(args, "eventId"@, ValueView::Text(s.kernels[k].event_id@))
    &&& has_arg(args, "launchEventId"@, ValueView::MaybeText(launcher(s, s.kernels[k].launch_call)))
    &&& has_arg(args, "gpuStartNs"@, ValueView::Int(s.kernels[k].start))
    &&& has_arg(args, "gpuEndNs"@, ValueView::Int(s.kernels[k].end))
    &&& has_arg(args, "gpuDurationNs"@, ValueView::Int((s.kernels[k].end - s.kernels[k].start) as i64))
    &&& has_arg(args, "sourceProcessId"@, ValueView::Int(pid_of(s.kernels[k].global_pid)))
    &&& has_arg(args, "deviceId"@, ValueView::Int(s.kernels[k].device))
    &&& has_arg(args, "grid"@, ValueView::Ints(s.kernels[k].grid@))
    &&& has_arg(args, "block"@, ValueView::Ints(s.kernels[k].block@))
    &&& has_arg(args, "NVTXRegions"@, ValueView::Texts(names_of(s.kernels[k].nvtx_regions@)))
}

pub proof fn lemma_tells_kernel(s: Scene, k: int)
    ensures
        tells_kernel(s, k, kernel_args(s, k)),
{
    reveal(tells_kernel);
    let args = kernel_args(s, k);
    assert(texts(s.kernels[k].nvtx_regions@) =~= names_of(s.kernels[k].nvtx_regions@));
    lemma_has(args, 0);
    lemma_has(args, 1);
    lemma_has(args, 2);
    lemma_has(args, 3);
    lemma_has(args, 4);
    lemma_has(args, 5);
    lemma_has(args, 6);
    lemma_has(args, 7);
    lemma_has(args, 8);
    lemma_has(args, 9);
    lemma_has(args, 10);
    lemma_has(args, 11);
    lemma_has(args, 12);
    lemma_has(args, 13);
}

/// The arguments of a kernel's slice on the core timeline.
#[verifier::opaque]
pub open spec fn tells_core(s: Scene, k: int, args: Seq<ArgView>) -> bool {
    &&& args.len() == 5
    &&& has_arg(args, "deviceId"@, ValueView::Int(s.kernels[k].device))
    &&& has_arg(args, "contextId"@, ValueView::Int(s.kernels[k].context))
    &&& has_arg(args, "streamId"@, ValueView::Int(s.kernels[k].stream))
    &&& has_arg(args, "correlationId"@, ValueView::Int(s.kernels[k].correlation))
    &&& has_arg(args, "eventId"@, ValueView::Text(s.kernels[k].event_id@))
}

pub proof fn lemma_tells_core(s: Scene, k: int)
    ensures
        tells_core(s, k, core_args(s.kernels[k])),
{
    reveal(tells_core);
    let args = core_args(s.kernels[k]);
    lemma_has(args, 0);
    lemma_has(args, 1);
    lemma_has(args, 2);
    lemma_has(args, 3);
    lemma_has(args, 4);
}

/// The arguments of the arrow to a kernel's slice on its stream.
#[verifier::opaque]
pub open spec fn tells_launch(s: Scene, k: int, c: int, args: Seq<ArgView>) -> bool {
    &&& args.len() == 11
    &&& has_arg(args, "from"@, ValueView::Text(s.runtime[c].event_id->0@))
    &&& has_arg(args, "to"@, ValueView::Text(s.kernels[k].event_id@))
    &&& has_arg(args, "correlationId"@, ValueView::Int(s.kernels[k].correlation))
    &&& has_arg(args, "deviceId"@, ValueView::Int(s.kernels[k].device))
    &&& has_arg(args, "streamId"@, ValueView::Int(s.kernels[k].stream))
    &&& has_arg(args, "cpuCallStartNs"@, ValueView::Int(s.runtime[c].start))
    &&& has_arg(args, "cpuCallEndNs"@, ValueView::Int(s.runtime[c].end))
    &&& has_arg(args, "gpuKernelStartNs"@, ValueView::Int(s.kernels[k].start))
    &&& has_arg(args, "gpuKernelEndNs"@, ValueView::Int(s.kernels[k].end))
    &&& has_arg(args, "launchLatencyUs"@, ValueView::Micros(not_negative((s.kernels[k].start - s.runtime[c].end) as i64)))
    &&& has_arg(args, "kernelStartMinusApiEndUs"@, ValueView::Micros((s.kernels[k].start - s.runtime[c].end) as i64))
}

pub proof fn lemma_tells_launch(s: Scene, k: int, c: int)
    ensures
        tells_launch(s, k, c, launch_args(s.kernels[k], s.runtime[c])),
{
    reveal(tells_launch);
    let args = launch_args(s.kernels[k], s.runtime[c]);
    lemma_has(args, 0);
    lemma_has(args, 1);
    lemma_has(args, 2);
    lemma_has(args, 3);
    lemma_has(args, 4);
    lemma_has(args, 5);
    lemma_has(args, 6);
    lemma_has(args, 7);
    lemma_has(args, 8);
    lemma_has(args, 9);
    lemma_has(args, 10);
}

/// The arguments of the arrow to a kernel's slice on the core timeline.
#[verifier::opaque]
pub open spec fn tells_core_launch(s: Scene, k: int, c: int, args: Seq<ArgView>) -> bool {
    &&& args.len() == 12
    &&& has_arg(args, "from"@, ValueView::Text(s.runtime[c].event_id->0@))
    &&& has_arg(args, "to"@, ValueView::Text(s.kernels[k].event_id@))
    &&& has_arg(args, "correlationId"@, ValueView::Int(s.kernels[k].correlation))
    &&& has_arg(args, "deviceId"@, ValueView::Int(s.kernels[k].device))
    &&& has_arg(args, "streamId"@, ValueView::Int(s.kernels[k].stream))
    &&& has_arg(args, "cpuCallStartNs"@, ValueView::Int(s.runtime[c].start))
    &&& has_arg(args, "cpuCallEndNs"@, ValueView::Int(s.runtime[c].end))
    &&& has_arg(args, "gpuKernelStartNs"@, ValueView::Int(s.kernels[k].start))
    &&& has_arg(args, "gpuKernelEndNs"@, ValueView::Int(s.kernels[k].end))
    &&& has_arg(args, "launchLatencyUs"@, ValueView::Micros(not_negative((s.kernels[k].start - s.runtime[c].end) as i64)))
    &&& has_arg(args, "kernelStartMinusApiEndUs"@, ValueView::Micros((s.kernels[k].start - s.runtime[c].end) as i64))
    &&& has_arg(args, "targetTrack"@, ValueView::Text("CUDA Core Timeline"@))
}

pub proof fn lemma_tells_core_launch(s: Scene, k: int, c: int)
    ensures
        tells_core_launch(s, k, c, launch_args(s.kernels[k], s.runtime[c]).push(ArgView { key: "targetTrack"@, value: ValueView::Text("CUDA Core Timeline"@) })),
{
    reveal(tells_core_launch);
    let args = launch_args(s.kernels[k], s.runtime[c]).push(ArgView { key: "targetTrack"@, value: ValueView::Text("CUDA Core Timeline"@) });
    lemma_has(args, 0);
    lemma_has(args, 1);
    lemma_has(args, 2);
    lemma_has(args, 3);
    lemma_has(args, 4);
    lemma_has(args, 5);
    lemma_has(args, 6);
    lemma_has(args, 7);
    lemma_has(args, 8);
    lemma_has(args, 9);
    lemma_has(args, 10);
    lemma_has(args, 11);
}

/// The arguments of a copy's slice on its stream.
#[verifier::opaque]
pub open spec fn tells_copy(s: Scene, i: int, args: Seq<ArgView>) -> bool {
    &&& args.len() == 27
    &&& has_arg(args, "direction"@, ValueView::Text(direction_text(s.memcpys[i].copy_kind)))
    &&& has_arg(args, "copyKindId"@, ValueView::Int(s.memcpys[i].copy_kind))
    &&& has_arg(args, "bytes"@, ValueView::Count(s.memcpys[i].bytes))
    &&& has_arg(args, "durationNs"@, ValueView::Int((s.memcpys[i].end - s.memcpys[i].start) as i64))
    &&& has_arg(args, "bandwidthGBps"@, rate_between(s.memcpys[i].bytes, s.memcpys[i].start, s.memcpys[i].end))
    &&& has_arg(args, "sourceProcessId"@, ValueView::Int(pid_of(s.memcpys[i].global_pid)))
    &&& has_arg(args, "deviceId"@, ValueView::Int(primary(s, i)))
    &&& has_arg(args, "activityDeviceId"@, ValueView::Int(s.memcpys[i].device))
    &&& has_arg(args, "displayDeviceIds"@, ValueView::Ints(ordered(shown(s, i))))
    &&& has_arg(args, "contextId"@, ValueView::Int(s.memcpys[i].context))
    &&& has_arg(args, "streamId"@, ValueView::Int(s.memcpys[i].stream))
    &&& has_arg(args, "correlationId"@, ValueView::Int(s.memcpys[i].correlation))
    &&& has_arg(args, "eventId"@, ValueView::Text(s.memcpys[i].event_id@))
    &&& has_arg(args, "launchEventId"@, ValueView::MaybeText(launcher(s, s.memcpys[i].launch_call)))
    &&& has_arg(args, "srcMemoryKindId"@, ValueView::Int(s.memcpys[i].src_kind))
    &&& has_arg(args, "srcMemoryKind"@, ValueView::Text(memory_text(s.memcpys[i].src_kind)))
    &&& has_arg(args, "dstMemoryKindId"@, ValueView::Int(s.memcpys[i].dst_kind))
    &&& has_arg(args, "dstMemoryKind"@, ValueView::Text(memory_text(s.memcpys[i].dst_kind)))
    &&& has_arg(args, "srcDeviceId"@, ValueView::Int(s.memcpys[i].src_device))
    &&& has_arg(args, "srcContextId"@, ValueView::Int(s.memcpys[i].src_context))
    &&& has_arg(args, "dstDeviceId"@, ValueView::Int(s.memcpys[i].dst_device))
    &&& has_arg(args, "dstContextId"@, ValueView::Int(s.memcpys[i].dst_context))
    &&& has_arg(args, "graphNodeId"@, ValueView::Int(s.memcpys[i].graph_node))
    &&& has_arg(args, "virtualAddress"@, ValueView::Text(s.memcpys[i].virtual_address@))
    &&& has_arg(args, "copyCount"@, ValueView::Count(s.memcpys[i].copy_count))
    &&& has_arg(args, "gpuStartNs"@, ValueView::Int(s.memcpys[i].start))
    &&& has_arg(args, "gpuEndNs"@, ValueView::Int(s.memcpys[i].end))
}

#[verifier::rlimit(40)]
pub proof fn lemma_tells_copy(s: Scene, i: int)
    ensures
        tells_copy(s, i, copy_args(s, i)),
{
    reveal(tells_copy);
    let args = copy_args(s, i);
    lemma_has(args, 0);
    lemma_has(args, 1);
    lemma_has(args, 2);
    lemma_has(args, 3);
    lemma_has(args, 4);
    lemma_has(args, 5);
    lemma_has(args, 6);
    lemma_has(args, 7);
    lemma_has(args, 8);
    lemma_has(args, 9);
    lemma_has(args, 10);
    lemma_has(args, 11);
    lemma_has(args, 12);
    lemma_has(args, 13);
    lemma_has(args, 14);
    lemma_has(args, 15);
    lemma_has(args, 16);
    lemma_has(args, 17);
    lemma_has(args, 18);
    lemma_has(args, 19);
    lemma_has(args, 20);
    lemma_has(args, 21);
    lemma_has(args, 22);
    lemma_has(args, 23);
    lemma_has(args, 24);
    lemma_has(args, 25);
    lemma_has(args, 26);
}

/// The arguments of a copy's slice on the track of its traffic.
#[verifier::opaque]
pub open spec fn tells_usage(s: Scene, i: int, device: i64, args: Seq<ArgView>) -> bool {
    &&& args.len() == 5
    &&& has_arg(args, "direction"@, ValueView::Text(direction_text(s.memcpys[i].copy_kind)))
    &&& has_arg(args, "bytes"@, ValueView::Count(s.memcpys[i].bytes))
    &&& has_arg(args, "bandwidthGBps"@, rate_between(s.memcpys[i].bytes, s.memcpys[i].start, s.memcpys[i].end))
    &&& has_arg(args, "deviceId"@, ValueView::Int(device))
    &&& has_arg(args, "eventId"@, ValueView::Text(s.memcpys[i].event_id@))
}

pub proof fn lemma_tells_usage(s: Scene, i: int, device: i64)
    ensures
        tells_usage(s, i, device, usage_args(s.memcpys[i], device)),
{
    reveal(tells_usage);
    let args = usage_args(s.memcpys[i], device);
    lemma_has(args, 0);
    lemma_has(args, 1);
    lemma_has(args, 2);
    lemma_has(args, 3);
    lemma_has(args, 4);
}

/// The arguments of the arrow to a copy's slice on its stream.
#[verifier::opaque]
pub open spec fn tells_copy_launch(s: Scene, i: int, c: int, device: i64, args: Seq<ArgView>) -> bool {
    &&& args.len() == 13
    &&& has_arg(args, "from"@, ValueView::Text(s.runtime[c].event_id->0@))
    &&& has_arg(args, "to"@, ValueView::Text(s.memcpys[i].event_id@))
    &&& has_arg(args, "direction"@, ValueView::Text(direction_text(s.memcpys[i].copy_kind)))
    &&& has_arg(args, "correlationId"@, ValueView::Int(s.memcpys[i].correlation))
    &&& has_arg(args, "deviceId"@, ValueView::Int(device))
    &&& has_arg(args, "activityDeviceId"@, ValueView::Int(s.memcpys[i].device))
    &&& has_arg(args, "displayDeviceIds"@, ValueView::Ints(ordered(shown(s, i))))
    &&& has_arg(args, "streamId"@, ValueView::Int(s.memcpys[i].stream))
    &&& has_arg(args, "bytes"@, ValueView::Count(s.memcpys[i].bytes))
    &&& has_arg(args, "cpuCallStartNs"@, ValueView::Int(s.runtime[c].start))
    &&& has_arg(args, "cpuCallEndNs"@, ValueView::Int(s.runtime[c].end))
    &&& has_arg(args, "gpuCopyStartNs"@, ValueView::Int(s.memcpys[i].start))
    &&& has_arg(args, "gpuCopyEndNs"@, ValueView::Int(s.memcpys[i].end))
}

pub proof fn lemma_tells_copy_launch(s: Scene, i: int, c: int, device: i64)
    ensures
        tells_copy_launch(s, i, c, device, copy_flow_args(s, i, c, device)),
{
    reveal(tells_copy_launch);
    let args = copy_flow_args(s, i, c, device);
    lemma_has(args, 0);
    lemma_has(args, 1);
    lemma_has(args, 2);
    lemma_has(args, 3);
    lemma_has(args, 4);
    lemma_has(args, 5);
    lemma_has(args, 6);
    lemma_has(args, 7);
    lemma_has(args, 8);
    lemma_has(args, 9);
    lemma_has(args, 10);
    lemma_has(args, 11);
    lemma_has(args, 12);
}

/// The arguments of the arrow to a copy's slice on a PCIe track.
#[verifier::opaque]
pub open spec fn tells_pcie_launch(s: Scene, i: int, c: int, device: i64, args: Seq<ArgView>) -> bool {
    &&& args.len() == 14
    &&& has_arg(args, "from"@, ValueView::Text(s.runtime[c].event_id->0@))
    &&& has_arg(args, "to"@, ValueView::Text(s.memcpys[i].event_id@))
    &&& has_arg(args, "direction"@, ValueView::Text(direction_text(s.memcpys[i].copy_kind)))
    &&& has_arg(args, "correlationId"@, ValueView::Int(s.memcpys[i].correlation))
    &&& has_arg(args, "deviceId"@, ValueView::Int(device))
    &&& has_arg(args, "activityDeviceId"@, ValueView::Int(s.memcpys[i].device))
    &&& has_arg(args, "displayDeviceIds"@, ValueView::Ints(ordered(shown(s, i))))
    &&& has_arg(args, "streamId"@, ValueView::Int(s.memcpys[i].stream))
    &&& has_arg(args, "bytes"@, ValueView::Count(s.memcpys[i].bytes))
    &&& has_arg(args, "cpuCallStartNs"@, ValueView::Int(s.runtime[c].start))
    &&& has_arg(args, "cpuCallEndNs"@, ValueView::Int(s.runtime[c].end))
    &&& has_arg(args, "gpuCopyStartNs"@, ValueView::Int(s.memcpys[i].start))
    &&& has_arg(args, "gpuCopyEndNs"@, ValueView::Int(s.memcpys[i].end))
    &&& has_arg(args, "targetTrack"@, ValueView::Text("PCIe Usage"@))
}

pub proof fn lemma_tells_pcie_launch(s: Scene, i: int, c: int, device: i64)
    ensures
        tells_pcie_launch(s, i, c, device, copy_flow_args(s, i, c, device).push(ArgView { key: "targetTrack"@, value: ValueView::Text("PCIe Usage"@) })),
{
    reveal(tells_pcie_launch);
    let args = copy_flow_args(s, i, c, device).push(ArgView { key: "targetTrack"@, value: ValueView::Text("PCIe Usage"@) });
    lemma_has(args, 0);
    lemma_has(args, 1);
    lemma_has(args, 2);
    lemma_has(args, 3);
    lemma_has(args, 4);
    lemma_has(args, 5);
    lemma_has(args, 6);
    lemma_has(args, 7);
    lemma_has(args, 8);
    lemma_has(args, 9);
    lemma_has(args, 10);
    lemma_has(args, 11);
    lemma_has(args, 12);
    lemma_has(args, 13);
}

proof fn lemma_five<T>(a: Seq<T>, b: Seq<T>, c: Seq<T>, d: Seq<T>, e: Seq<T>, i: int)
    ensures
        0 <= i < b.len() ==> a.len() + i < (a + b + c + d + e).len() && (a + b + c + d + e)[a.len() + i] == b[i],
        0 <= i < c.len() ==> a.len() + b.len() + i < (a + b + c + d + e).len() && (a + b + c + d + e)[a.len() + b.len()
            + i] == c[i],
        0 <= i < d.len() ==> a.len() + b.len() + c.len() + i < (a + b + c + d + e).len() && (a + b + c + d + e)[a.len()
            + b.len() + c.len() + i] == d[i],
        0 <= i < e.len() ==> a.len() + b.len() + c.len() + d.len() + i < (a + b + c + d + e).len() && (a + b + c + d
            + e)[a.len() + b.len() + c.len() + d.len() + i] == e[i],
{
}

#[verifier::opaque]
spec fn calls_of(s: Scene) -> Seq<EventView> {
    concat(s.runtime.len() as int, |c: int| call_events(s, c))
}

#[verifier::opaque]
spec fn kernels_of(s: Scene) -> Seq<EventView> {
    concat(s.kernels.len() as int, |k: int| kernel_events(s, k))
}

#[verifier::opaque]
spec fn copies_of(s: Scene) -> Seq<EventView> {
    concat(s.memcpys.len() as int, |i: int| copy_events(s, i))
}

proof fn lemma_parts(s: Scene)
    ensures
        timeline_events(s) == metadata_events(s) + calls_of(s) + kernels_of(s) + copies_of(s) + range_events(s),
{
    reveal(calls_of);
    reveal(kernels_of);
    reveal(copies_of);
}

/// Where the first event of the entry with this number stands.
spec fn calls_start(s: Scene, c: int) -> int {
    (metadata_events(s).len() + concat(c, |c: int| call_events(s, c)).len()) as int
}

proof fn lemma_calls_at(s: Scene, c: int, j: int)
    requires
        0 <= c < s.runtime.len(),
        0 <= j < call_events(s, c).len(),
    ensures
        0 <= calls_start(s, c) + j < timeline_events(s).len(),
        timeline_events(s)[calls_start(s, c) + j] == call_events(s, c)[j],
{
    let f = |c: int| call_events(s, c);
    let i = concat(c, f).len() + j;
    assert(i < calls_of(s).len() && calls_of(s)[i] == f(c)[j]) by {
        reveal(calls_of);
        lemma_concat_at(s.runtime.len() as int, f, c, j);
    }
    lemma_five(metadata_events(s), calls_of(s), kernels_of(s), copies_of(s), range_events(s), i);
    assert(timeline_events(s) == metadata_events(s) + calls_of(s) + kernels_of(s) + copies_of(s) + range_events(s)) by {
        lemma_parts(s);
    }
}

/// Where the first event of the entry with this number stands.
spec fn kernels_start(s: Scene, k: int) -> int {
    (metadata_events(s).len() + calls_of(s).len() + concat(k, |k: int| kernel_events(s, k)).len()) as int
}

proof fn lemma_kernels_at(s: Scene, k: int, j: int)
    requires
        0 <= k < s.kernels.len(),
        0 <= j < kernel_events(s, k).len(),
    ensures
        0 <= kernels_start(s, k) + j < timeline_events(s).len(),
        timeline_events(s)[kernels_start(s, k) + j] == kernel_events(s, k)[j],
{
    let f = |k: int| kernel_events(s, k);
    let i = concat(k, f).len() + j;
    assert(i < kernels_of(s).len() && kernels_of(s)[i] == f(k)[j]) by {
        reveal(kernels_of);
        lemma_concat_at(s.kernels.len() as int, f, k, j);
    }
    lemma_five(metadata_events(s), calls_of(s), kernels_of(s), copies_of(s), range_events(s), i);
    assert(timeline_events(s) == metadata_events(s) + calls_of(s) + kernels_of(s) + copies_of(s) + range_events(s)) by {
        lemma_parts(s);
    }
}

/// Where the first event of the entry with this number stands.
spec fn copies_start(s: Scene, i: int) -> int {
    (metadata_events(s).len() + calls_of(s).len() + kernels_of(s).len() + concat(i, |i: int| copy_events(s, i)).len()) as int
}

proof fn lemma_copies_at(s: Scene, i: int, j: int)
    requires
        0 <= i < s.memcpys.len(),
        0 <= j < copy_events(s, i).len(),
    ensures
        0 <= copies_start(s, i) + j < timeline_events(s).len(),
        timeline_events(s)[copies_start(s, i) + j] == copy_events(s, i)[j],
{
    let f = |i: int| copy_events(s, i);
    let x = concat(i, f).len() + j;
    assert(x < copies_of(s).len() && copies_of(s)[x] == f(i)[j]) by {
        reveal(copies_of);
        lemma_concat_at(s.memcpys.len() as int, f, i, j);
    }
    lemma_five(metadata_events(s), calls_of(s), kernels_of(s), copies_of(s), range_events(s), x);
    assert(timeline_events(s) == metadata_events(s) + calls_of(s) + kernels_of(s) + copies_of(s) + range_events(s)) by {
        lemma_parts(s);
    }
}

/// The begin and end events of ranges close the timeline.
pub proof fn lemma_ranges_at(s: Scene, j: int) -> (x: int)
    requires
        0 <= j < range_events(s).len(),
    ensures
        0 <= x < timeline_events(s).len(),
        timeline_events(s)[x] == range_events(s)[j],
        x == timeline_events(s).len() - range_events(s).len() + j,
{
    lemma_five(metadata_events(s), calls_of(s), kernels_of(s), copies_of(s), range_events(s), j);
    assert(timeline_events(s) == metadata_events(s) + calls_of(s) + kernels_of(s) + copies_of(s) + range_events(s)) by {
        lemma_parts(s);
    }
    (metadata_events(s).len() + calls_of(s).len() + kernels_of(s).len() + copies_of(s).len() + j) as int
}

/// A visible call is a slice under each of its devices, on a track of its thread.
pub proof fn lemma_call_is_shown(s: Scene, c: int, device: i64) -> (x: int)
    requires
        placeable(s),
        s.runtime.len() <= usize::MAX,
        0 <= c < s.runtime.len(),
        s.runtime[c].event_id is Some,
        call_devices(s, c).contains(device),
    ensures
        0 <= x < timeline_events(s).len(),
        is_slice(s, timeline_events(s)[x], s.runtime[c].name@, "cuda_api"@, s.runtime[c].start, s.runtime[c].end),
        exists|lane: int|
            lane >= 0 && is_on(
                s,
                timeline_events(s)[x],
                device,
                pid_of(s.runtime[c].global_tid),
                "CUDA API "@ + decimal(tid_of(s.runtime[c].global_tid) as int) + " / Lane "@ + #[trigger] decimal(lane + 1),
            ),
        timeline_events(s)[x].pid == gpu_process(s, pid_of(s.runtime[c].global_tid), device),
        timeline_events(s)[x].tid == call_tid(s, c, device),
        tells_call(s, c, device, timeline_events(s)[x].args),
{
    lemma_devices_listed(s);
    let v = ordered(call_devices(s, c));
    assert(v.to_set().contains(device));
    let j = choose|j: int| 0 <= j < v.len() && v[j] == device;
    assert(call_events(s, c)[j] == api_event(s, c, device));
    lemma_calls_at(s, c, j);
    let x = calls_start(s, c) + j;
    assert(call_placed(s, c));
    lemma_processes_are_called(s, pid_of(s.runtime[c].global_tid), device);
    let lane = lemma_call_called(s, c, device);
    assert(is_on(
        s,
        timeline_events(s)[x],
        device,
        pid_of(s.runtime[c].global_tid),
        "CUDA API "@ + decimal(tid_of(s.runtime[c].global_tid) as int) + " / Lane "@ + decimal(lane + 1),
    ));
    lemma_tells_call(s, c, device);
    x
}

proof fn lemma_kernel_slices(s: Scene, k: int)
    ensures
        kernel_events(s, k).len() >= 2,
        kernel_events(s, k)[0] == stream_slice(s, k),
        kernel_events(s, k)[1] == core_slice(s, k),
        s.kernels[k].launch_call matches Some(c) ==> {
            &&& kernel_events(s, k).len() == 6
            &&& forall|j: int| 0 <= j < 4 ==> kernel_events(s, k)[2 + j] == #[trigger] launch_arrows(s, k, c as int)[j]
        },
{
}

/// A kernel is a slice on the track of its hardware stream.
pub proof fn lemma_kernel_is_shown(s: Scene, k: int) -> (x: int)
    requires
        s.kernels.len() + s.memcpys.len() <= usize::MAX,
        0 <= k < s.kernels.len(),
    ensures
        0 <= x < timeline_events(s).len(),
        is_slice(s, timeline_events(s)[x], s.kernels[k].name@, "cuda"@, s.kernels[k].start, s.kernels[k].end),
        exists|lane: int|
            lane >= 0 && is_on(
                s,
                timeline_events(s)[x],
                s.kernels[k].device,
                pid_of(s.kernels[k].global_pid),
                #[trigger] laned(
                    "CUDA HW Context "@ + decimal(s.kernels[k].context as int) + " / Stream "@ + decimal(s.kernels[k].stream as int),
                    lane,
                ),
            ),
        timeline_events(s)[x].tid == kernel_stream_tid(s, k),
        timeline_events(s)[x].pid == kernel_process(s, k),
        tells_kernel(s, k, timeline_events(s)[x].args),
{
    lemma_kernel_slices(s, k);
    lemma_kernels_at(s, k, 0);
    let x = kernels_start(s, k);
    assert(timeline_events(s)[x] == stream_slice(s, k));
    lemma_kernel_device_placed(s, k);
    lemma_processes_are_called(s, pid_of(s.kernels[k].global_pid), s.kernels[k].device);
    let lane = lemma_kernel_stream_called(s, k);
    let label = laned(
        "CUDA HW Context "@ + decimal(s.kernels[k].context as int) + " / Stream "@ + decimal(s.kernels[k].stream as int),
        lane,
    );
    assert(is_on(s, timeline_events(s)[x], s.kernels[k].device, pid_of(s.kernels[k].global_pid), label));
    lemma_tells_kernel(s, k);
    x
}

/// A kernel is also a slice on the core timeline of its device.
pub proof fn lemma_kernel_is_on_core_timeline(s: Scene, k: int) -> (x: int)
    requires
        s.kernels.len() <= usize::MAX,
        0 <= k < s.kernels.len(),
    ensures
        0 <= x < timeline_events(s).len(),
        is_slice(s, timeline_events(s)[x], s.kernels[k].name@, "cuda_kernel_usage"@, s.kernels[k].start, s.kernels[k].end),
        exists|lane: int|
            lane >= 0 && is_on(
                s,
                timeline_events(s)[x],
                s.kernels[k].device,
                pid_of(s.kernels[k].global_pid),
                #[trigger] laned("CUDA Core Timeline"@, lane),
            ),
        timeline_events(s)[x].tid == core_tid(s, k),
        timeline_events(s)[x].pid == kernel_process(s, k),
        tells_core(s, k, timeline_events(s)[x].args),
{
    lemma_kernel_slices(s, k);
    lemma_kernels_at(s, k, 1);
    let x = kernels_start(s, k) + 1;
    assert(timeline_events(s)[x] == core_slice(s, k));
    lemma_kernel_device_placed(s, k);
    lemma_processes_are_called(s, pid_of(s.kernels[k].global_pid), s.kernels[k].device);
    let lane = lemma_core_called(s, k);
    let label = laned("CUDA Core Timeline"@, lane);
    assert(is_on(s, timeline_events(s)[x], s.kernels[k].device, pid_of(s.kernels[k].global_pid), label));
    lemma_tells_core(s, k);
    x
}

proof fn lemma_launch_pair(s: Scene, k: int, c: int, a: EventView, b: EventView, from: EventView, to: EventView)
    requires
        a == launch_arrows(s, k, c)[0],
        b == launch_arrows(s, k, c)[1],
        i64::MIN < s.kernels[k].start < i64::MAX,
        i64::MIN < s.runtime[c].end,
        from.pid == kernel_process(s, k),
        from.tid == call_tid(s, c, s.kernels[k].device),
        to.pid == kernel_process(s, k),
        to.tid == kernel_stream_tid(s, k),
    ensures
        is_arrow(
            a,
            b,
            from,
            to,
            "cuda_kernel_launch"@,
            "cuda_launch_dependency"@,
            leaving(s, s.runtime[c], s.kernels[k].start),
            arriving(s, s.kernels[k].start, s.kernels[k].end),
        ),
        a.args == launch_args(s.kernels[k], s.runtime[c]),
{
}

proof fn lemma_core_launch_pair(s: Scene, k: int, c: int, a: EventView, b: EventView, from: EventView, to: EventView)
    requires
        a == launch_arrows(s, k, c)[2],
        b == launch_arrows(s, k, c)[3],
        i64::MIN < s.kernels[k].start < i64::MAX,
        i64::MIN < s.runtime[c].end,
        from.pid == kernel_process(s, k),
        from.tid == call_tid(s, c, s.kernels[k].device),
        to.pid == kernel_process(s, k),
        to.tid == core_tid(s, k),
    ensures
        is_arrow(
            a,
            b,
            from,
            to,
            "cuda_core_kernel_launch"@,
            "cuda_core_launch_dependency"@,
            leaving(s, s.runtime[c], s.kernels[k].start),
            arriving(s, s.kernels[k].start, s.kernels[k].end),
        ),
        a.args == launch_args(s.kernels[k], s.runtime[c]).push(
            ArgView { key: "targetTrack"@, value: ValueView::Text("CUDA Core Timeline"@) },
        ),
{
}

/// A launched kernel has an arrow from its call to its slice on the stream.
pub proof fn lemma_kernel_has_arrow(s: Scene, k: int, c: int) -> (at: (int, int, int))
    requires
        placeable(s),
        s.kernels.len() + s.memcpys.len() <= usize::MAX,
        s.runtime.len() <= usize::MAX,
        0 <= k < s.kernels.len(),
        0 <= c < s.runtime.len(),
        s.kernels[k].launch_call == Some(c as usize),
        s.runtime[c].event_id is Some,
        pid_of(s.runtime[c].global_tid) == pid_of(s.kernels[k].global_pid),
        i64::MIN < s.kernels[k].start < i64::MAX,
        i64::MIN < s.runtime[c].end,
    ensures
        0 <= at.0 < timeline_events(s).len(),
        0 <= at.1 < timeline_events(s).len(),
        0 <= at.2 < timeline_events(s).len() - 1,
        is_slice(s, timeline_events(s)[at.0], s.runtime[c].name@, "cuda_api"@, s.runtime[c].start, s.runtime[c].end),
        tells_call(s, c, s.kernels[k].device, timeline_events(s)[at.0].args),
        is_slice(s, timeline_events(s)[at.1], s.kernels[k].name@, "cuda"@, s.kernels[k].start, s.kernels[k].end),
        tells_kernel(s, k, timeline_events(s)[at.1].args),
        is_arrow(
            timeline_events(s)[at.2],
            timeline_events(s)[at.2 + 1],
            timeline_events(s)[at.0],
            timeline_events(s)[at.1],
            "cuda_kernel_launch"@,
            "cuda_launch_dependency"@,
            leaving(s, s.runtime[c], s.kernels[k].start),
            arriving(s, s.kernels[k].start, s.kernels[k].end),
        ),
        tells_launch(s, k, c, timeline_events(s)[at.2].args),
{
    assert(call_devices(s, c).contains(s.kernels[k].device)) by {
        lemma_launch_devices(s);
    }
    let a = lemma_call_is_shown(s, c, s.kernels[k].device);
    let b = lemma_kernel_is_shown(s, k);
    lemma_kernel_slices(s, k);
    lemma_kernels_at(s, k, 2);
    lemma_kernels_at(s, k, 3);
    let x = kernels_start(s, k) + 2;
    lemma_launch_pair(s, k, c, timeline_events(s)[x], timeline_events(s)[x + 1], timeline_events(s)[a], timeline_events(s)[b]);
    lemma_tells_launch(s, k, c);
    (a, b, x)
}

/// A launched kernel has another arrow from its call to its slice on the core timeline.
pub proof fn lemma_kernel_has_core_arrow(s: Scene, k: int, c: int) -> (at: (int, int, int))
    requires
        placeable(s),
        s.kernels.len() + s.memcpys.len() <= usize::MAX,
        s.runtime.len() <= usize::MAX,
        0 <= k < s.kernels.len(),
        0 <= c < s.runtime.len(),
        s.kernels[k].launch_call == Some(c as usize),
        s.runtime[c].event_id is Some,
        pid_of(s.runtime[c].global_tid) == pid_of(s.kernels[k].global_pid),
        i64::MIN < s.kernels[k].start < i64::MAX,
        i64::MIN < s.runtime[c].end,
    ensures
        0 <= at.0 < timeline_events(s).len(),
        0 <= at.1 < timeline_events(s).len(),
        0 <= at.2 < timeline_events(s).len() - 1,
        is_slice(s, timeline_events(s)[at.0], s.runtime[c].name@, "cuda_api"@, s.runtime[c].start, s.runtime[c].end),
        tells_call(s, c, s.kernels[k].device, timeline_events(s)[at.0].args),
        is_slice(s, timeline_events(s)[at.1], s.kernels[k].name@, "cuda_kernel_usage"@, s.kernels[k].start, s.kernels[k].end),
        tells_core(s, k, timeline_events(s)[at.1].args),
        is_arrow(
            timeline_events(s)[at.2],
            timeline_events(s)[at.2 + 1],
            timeline_events(s)[at.0],
            timeline_events(s)[at.1],
            "cuda_core_kernel_launch"@,
            "cuda_core_launch_dependency"@,
            leaving(s, s.runtime[c], s.kernels[k].start),
            arriving(s, s.kernels[k].start, s.kernels[k].end),
        ),
        tells_core_launch(s, k, c, timeline_events(s)[at.2].args),
{
    assert(call_devices(s, c).contains(s.kernels[k].device)) by {
        lemma_launch_devices(s);
    }
    let a = lemma_call_is_shown(s, c, s.kernels[k].device);
    let b = lemma_kernel_is_on_core_timeline(s, k);
    lemma_kernel_slices(s, k);
    lemma_kernels_at(s, k, 4);
    lemma_kernels_at(s, k, 5);
    let x = kernels_start(s, k) + 4;
    lemma_core_launch_pair(s, k, c, timeline_events(s)[x], timeline_events(s)[x + 1], timeline_events(s)[a], timeline_events(s)[b]);
    lemma_tells_core_launch(s, k, c);
    (a, b, x)
}

proof fn lemma_copy_slices_at(s: Scene, i: int, j: int)
    requires
        0 <= j < ordered(shown(s, i)).len(),
    ensures
        copy_slices(s, i).len() == ordered(shown(s, i)).len() + 1,
        copy_slices(s, i).len() <= copy_events(s, i).len(),
        copy_events(s, i)[j + 1] == usage_slice(s, i, ordered(shown(s, i))[j]),
{
    assert(copy_slices(s, i)[j + 1] == usage_slice(s, i, ordered(shown(s, i))[j]));
}

proof fn lemma_copy_slice_at(s: Scene, i: int)
    ensures
        copy_events(s, i).len() >= 1,
        copy_events(s, i)[0] == copy_slice(s, i),
{
    assert(copy_slices(s, i)[0] == copy_slice(s, i));
}

proof fn lemma_copy_arrow_at(s: Scene, i: int, c: int)
    requires
        s.memcpys[i].launch_call == Some(c as usize),
        0 <= c <= usize::MAX,
    ensures
        copy_events(s, i).len() >= copy_slices(s, i).len() + 2,
        copy_events(s, i)[copy_slices(s, i).len() as int] == copy_arrow(s, i, c)[0],
        copy_events(s, i)[copy_slices(s, i).len() as int + 1] == copy_arrow(s, i, c)[1],
{
    let arrows = copy_arrows(s, i);
    assert(copy_arrow(s, i, c).len() == 2);
    assert(arrows[0] == copy_arrow(s, i, c)[0]);
    assert(arrows[1] == copy_arrow(s, i, c)[1]);
}

proof fn lemma_pcie_arrow_at(s: Scene, i: int, c: int, j: int) -> (y: int)
    requires
        s.memcpys[i].launch_call == Some(c as usize),
        0 <= c <= usize::MAX,
        0 <= j < pcie_arrows(s, i),
    ensures
        0 <= y < copy_events(s, i).len() - 1,
        copy_events(s, i)[y] == pcie_arrow(s, i, c, j)[0],
        copy_events(s, i)[y + 1] == pcie_arrow(s, i, c, j)[1],
{
    let g = |j: int| pcie_arrow(s, i, c, j);
    let m = pcie_arrows(s, i) as int;
    let n = copy_slices(s, i).len() as int;
    let off = concat(j, g).len() as int;
    assert(g(j).len() == 2);
    lemma_concat_at(m, g, j, 0);
    lemma_concat_at(m, g, j, 1);
    let first = copy_arrow(s, i, c);
    let rest = concat(m, g);
    assert(first.len() == 2);
    assert(copy_events(s, i) == copy_slices(s, i) + (first + rest));
    lemma_three(copy_slices(s, i), first, rest, off);
    lemma_three(copy_slices(s, i), first, rest, off + 1);
    n + 2 + off
}

proof fn lemma_three<T>(a: Seq<T>, b: Seq<T>, c: Seq<T>, i: int)
    requires
        0 <= i < c.len(),
    ensures
        a.len() + b.len() + i < (a + (b + c)).len(),
        (a + (b + c))[a.len() + b.len() + i] == c[i],
{
    assert((b + c)[b.len() + i] == c[i]);
}

/// A copy is a slice on the hardware stream of its primary device.
pub proof fn lemma_copy_is_shown(s: Scene, i: int) -> (x: int)
    requires
        s.kernels.len() + s.memcpys.len() <= usize::MAX,
        0 <= i < s.memcpys.len(),
    ensures
        0 <= x < timeline_events(s).len(),
        is_slice(s, timeline_events(s)[x], "CUDA Memcpy "@ + direction_text(s.memcpys[i].copy_kind), "cuda_memcpy"@, s.memcpys[i].start, s.memcpys[i].end),
        exists|lane: int|
            lane >= 0 && is_on(
                s,
                timeline_events(s)[x],
                primary(s, i),
                pid_of(s.memcpys[i].global_pid),
                #[trigger] laned(
                    "CUDA HW Context "@ + decimal(s.memcpys[i].context as int) + " / Stream "@ + decimal(s.memcpys[i].stream as int),
                    lane,
                ),
            ),
        timeline_events(s)[x].tid == copy_stream_tid(s, i),
        timeline_events(s)[x].pid == gpu_process(s, pid_of(s.memcpys[i].global_pid), primary(s, i)),
        tells_copy(s, i, timeline_events(s)[x].args),
{
    lemma_copy_slice_at(s, i);
    lemma_copies_at(s, i, 0);
    let x = copies_start(s, i);
    assert(timeline_events(s)[x] == copy_slice(s, i));
    lemma_copies_placed(s, i);
    lemma_primary_shown(s, i);
    lemma_processes_are_called(s, pid_of(s.memcpys[i].global_pid), primary(s, i));
    let lane = lemma_copy_stream_called(s, i);
    let label = laned(
        "CUDA HW Context "@ + decimal(s.memcpys[i].context as int) + " / Stream "@ + decimal(s.memcpys[i].stream as int),
        lane,
    );
    assert(is_on(s, timeline_events(s)[x], primary(s, i), pid_of(s.memcpys[i].global_pid), label));
    lemma_tells_copy(s, i);
    x
}

/// What the traffic of a kind of copy is called.
pub open spec fn traffic(kind: i64) -> Seq<char> {
    if kind == 1 || kind == 2 || kind == 11 || kind == 12 {
        "PCIe Usage"@
    } else if kind == 3 || kind == 8 || kind == 13 {
        "GPU Copy D2D"@
    } else {
        "CUDA Copy Unknown"@
    }
}

/// A copy is also a slice, under each of its devices, on the track of its traffic.
pub proof fn lemma_copy_is_on_usage_track(s: Scene, i: int, device: i64) -> (x: int)
    requires
        0 <= i < s.memcpys.len(),
        shown(s, i).contains(device),
    ensures
        0 <= x < timeline_events(s).len(),
        is_slice(s, timeline_events(s)[x], "CUDA Memcpy "@ + direction_text(s.memcpys[i].copy_kind), "cuda_copy_usage"@, s.memcpys[i].start, s.memcpys[i].end),
        is_on(s, timeline_events(s)[x], device, pid_of(s.memcpys[i].global_pid), traffic(s.memcpys[i].copy_kind)),
        timeline_events(s)[x].tid == usage_tid(s, i, device),
        timeline_events(s)[x].pid == gpu_process(s, pid_of(s.memcpys[i].global_pid), device),
        tells_usage(s, i, device, timeline_events(s)[x].args),
{
    let v = ordered(shown(s, i));
    assert(v.to_set().contains(device)) by {
        lemma_devices_listed(s);
    }
    let j = choose|j: int| 0 <= j < v.len() && v[j] == device;
    lemma_copy_slices_at(s, i, j);
    lemma_copies_at(s, i, j + 1);
    let x = copies_start(s, i) + (j + 1);
    assert(timeline_events(s)[x] == usage_slice(s, i, device));
    lemma_copies_placed(s, i);
    lemma_processes_are_called(s, pid_of(s.memcpys[i].global_pid), device);
    lemma_usage_called(s, i, device);
    lemma_tells_usage(s, i, device);
    x
}

proof fn lemma_copy_pair(s: Scene, i: int, c: int, a: EventView, b: EventView, from: EventView, to: EventView)
    requires
        a == copy_arrow(s, i, c)[0],
        b == copy_arrow(s, i, c)[1],
        i64::MIN < s.memcpys[i].start < i64::MAX,
        i64::MIN < s.runtime[c].end,
        from.pid == gpu_process(s, pid_of(s.memcpys[i].global_pid), primary(s, i)),
        from.tid == call_tid(s, c, primary(s, i)),
        to.pid == gpu_process(s, pid_of(s.memcpys[i].global_pid), primary(s, i)),
        to.tid == copy_stream_tid(s, i),
    ensures
        is_arrow(
            a,
            b,
            from,
            to,
            "cuda_memcpy_"@ + slug(direction_text(s.memcpys[i].copy_kind)),
            "cuda_memcpy_dependency"@,
            leaving(s, s.runtime[c], s.memcpys[i].start),
            arriving(s, s.memcpys[i].start, s.memcpys[i].end),
        ),
        a.args == copy_flow_args(s, i, c, primary(s, i)),
{
}

proof fn lemma_pcie_pair(s: Scene, i: int, c: int, j: int, a: EventView, b: EventView, from: EventView, to: EventView)
    requires
        a == pcie_arrow(s, i, c, j)[0],
        b == pcie_arrow(s, i, c, j)[1],
        i64::MIN < s.memcpys[i].start < i64::MAX,
        i64::MIN < s.runtime[c].end,
        from.pid == gpu_process(s, pid_of(s.memcpys[i].global_pid), ordered(shown(s, i))[j]),
        from.tid == call_tid(s, c, ordered(shown(s, i))[j]),
        to.pid == gpu_process(s, pid_of(s.memcpys[i].global_pid), ordered(shown(s, i))[j]),
        to.tid == usage_tid(s, i, ordered(shown(s, i))[j]),
    ensures
        is_arrow(
            a,
            b,
            from,
            to,
            "pcie_usage_"@ + slug(direction_text(s.memcpys[i].copy_kind)),
            "pcie_usage_dependency"@,
            leaving(s, s.runtime[c], s.memcpys[i].start),
            arriving(s, s.memcpys[i].start, s.memcpys[i].end),
        ),
        a.args == copy_flow_args(s, i, c, ordered(shown(s, i))[j]).push(
            ArgView { key: "targetTrack"@, value: ValueView::Text("PCIe Usage"@) },
        ),
{
}

/// A launched copy, whatever its kind, has an arrow from its call to its slice on the
/// stream.
pub proof fn lemma_copy_has_arrow(s: Scene, i: int, c: int) -> (at: (int, int, int))
    requires
        placeable(s),
        s.kernels.len() + s.memcpys.len() <= usize::MAX,
        s.runtime.len() <= usize::MAX,
        0 <= i < s.memcpys.len(),
        0 <= c < s.runtime.len(),
        s.memcpys[i].launch_call == Some(c as usize),
        s.runtime[c].event_id is Some,
        pid_of(s.runtime[c].global_tid) == pid_of(s.memcpys[i].global_pid),
        i64::MIN < s.memcpys[i].start < i64::MAX,
        i64::MIN < s.runtime[c].end,
    ensures
        0 <= at.0 < timeline_events(s).len(),
        0 <= at.1 < timeline_events(s).len(),
        0 <= at.2 < timeline_events(s).len() - 1,
        is_slice(s, timeline_events(s)[at.0], s.runtime[c].name@, "cuda_api"@, s.runtime[c].start, s.runtime[c].end),
        tells_call(s, c, primary(s, i), timeline_events(s)[at.0].args),
        is_slice(s, timeline_events(s)[at.1], "CUDA Memcpy "@ + direction_text(s.memcpys[i].copy_kind), "cuda_memcpy"@, s.memcpys[i].start, s.memcpys[i].end),
        tells_copy(s, i, timeline_events(s)[at.1].args),
        is_arrow(
            timeline_events(s)[at.2],
            timeline_events(s)[at.2 + 1],
            timeline_events(s)[at.0],
            timeline_events(s)[at.1],
            "cuda_memcpy_"@ + slug(direction_text(s.memcpys[i].copy_kind)),
            "cuda_memcpy_dependency"@,
            leaving(s, s.runtime[c], s.memcpys[i].start),
            arriving(s, s.memcpys[i].start, s.memcpys[i].end),
        ),
        tells_copy_launch(s, i, c, primary(s, i), timeline_events(s)[at.2].args),
{
    assert(call_devices(s, c).contains(primary(s, i))) by {
        lemma_launch_devices(s);
        lemma_primary_shown(s, i);
    }
    let a = lemma_call_is_shown(s, c, primary(s, i));
    let b = lemma_copy_is_shown(s, i);
    lemma_copy_arrow_at(s, i, c);
    let n = copy_slices(s, i).len() as int;
    lemma_copies_at(s, i, n);
    lemma_copies_at(s, i, n + 1);
    let x = copies_start(s, i) + n;
    lemma_copy_pair(s, i, c, timeline_events(s)[x], timeline_events(s)[x + 1], timeline_events(s)[a], timeline_events(s)[b]);
    lemma_tells_copy_launch(s, i, c, primary(s, i));
    (a, b, x)
}

/// A launched copy that touches the host, in either direction, has an arrow from its
/// call to its slice on the PCIe track of every device that it is shown on.
pub proof fn lemma_host_copy_has_pcie_arrows(s: Scene, i: int, c: int, device: i64) -> (at: (int, int, int))
    requires
        placeable(s),
        s.runtime.len() <= usize::MAX,
        0 <= i < s.memcpys.len(),
        0 <= c < s.runtime.len(),
        s.memcpys[i].launch_call == Some(c as usize),
        s.runtime[c].event_id is Some,
        pid_of(s.runtime[c].global_tid) == pid_of(s.memcpys[i].global_pid),
        i64::MIN < s.memcpys[i].start < i64::MAX,
        i64::MIN < s.runtime[c].end,
        s.memcpys[i].copy_kind == 1 || s.memcpys[i].copy_kind == 2 || s.memcpys[i].copy_kind == 11 || s.memcpys[i].copy_kind == 12,
        shown(s, i).contains(device),
    ensures
        0 <= at.0 < timeline_events(s).len(),
        0 <= at.1 < timeline_events(s).len(),
        0 <= at.2 < timeline_events(s).len() - 1,
        is_slice(s, timeline_events(s)[at.0], s.runtime[c].name@, "cuda_api"@, s.runtime[c].start, s.runtime[c].end),
        tells_call(s, c, device, timeline_events(s)[at.0].args),
        is_slice(s, timeline_events(s)[at.1], "CUDA Memcpy "@ + direction_text(s.memcpys[i].copy_kind), "cuda_copy_usage"@, s.memcpys[i].start, s.memcpys[i].end),
        tells_usage(s, i, device, timeline_events(s)[at.1].args),
        is_arrow(
            timeline_events(s)[at.2],
            timeline_events(s)[at.2 + 1],
            timeline_events(s)[at.0],
            timeline_events(s)[at.1],
            "pcie_usage_"@ + slug(direction_text(s.memcpys[i].copy_kind)),
            "pcie_usage_dependency"@,
            leaving(s, s.runtime[c], s.memcpys[i].start),
            arriving(s, s.memcpys[i].start, s.memcpys[i].end),
        ),
        is_on(s, timeline_events(s)[at.2 + 1], device, pid_of(s.memcpys[i].global_pid), "PCIe Usage"@),
        tells_pcie_launch(s, i, c, device, timeline_events(s)[at.2].args),
{
    assert(call_devices(s, c).contains(device)) by {
        lemma_launch_devices(s);
    }
    let a = lemma_call_is_shown(s, c, device);
    let b = lemma_copy_is_on_usage_track(s, i, device);
    let v = ordered(shown(s, i));
    assert(v.to_set().contains(device)) by {
        lemma_devices_listed(s);
    }
    let j = choose|j: int| 0 <= j < v.len() && v[j] == device;
    assert(pcie_arrows(s, i) == v.len());
    let y = lemma_pcie_arrow_at(s, i, c, j);
    lemma_copies_at(s, i, y);
    lemma_copies_at(s, i, y + 1);
    let x = copies_start(s, i) + y;
    lemma_pcie_pair(s, i, c, j, timeline_events(s)[x], timeline_events(s)[x + 1], timeline_events(s)[a], timeline_events(s)[b]);
    lemma_tells_pcie_launch(s, i, c, device);
    (a, b, x)
}

} // verus!
