//! The metadata events that name and order processes and tracks.
use crate::devices::{copy_track_label, copy_track_text};
use crate::event::{
    append_events, arg, arg_views, event_views, int_arg, text_arg, Arg, ArgView, EventView, TraceEvent, ValueView,
};
use crate::model::GPU_PROCESS_ID_BASE;
use crate::order::{keyed, lemma_integers_keyed, lemma_pair_keyed, lemma_triple_keyed, lists, ordered};
use crate::scene::{
    bound_devices, call_devices, call_entries, copy_on_track, copy_tid, copy_track_keys, gpu_keys, gpu_process,
    kernel_entries, lemma_copies_placed, lemma_groups_placed, lemma_kernel_device_placed, lists_devices, nvtx_keys,
    nvtx_tid, placeable, primary, projected_entries, shown, source_threads, stream_entries, thread_rank, Plan, Scene,
};
use crate::seqs::concat;
use crate::text::{append_count, append_decimal, copied, decimal};
use crate::tracks::{all_lanes, entry_keys, lemma_lane_groups, number_of, Lane, Packing};
use vstd::math::max;
use vstd::prelude::*;
use vstd::string::StringExecFns;

verus! {

/// The text that names a GPU process.
pub open spec fn device_label(device: i64, pid: i64) -> Seq<char> {
    "CUDA Device "@ + decimal(device as int) + " / Source PID "@ + decimal(pid as int)
}

pub fn label_device(device: i64, pid: i64) -> (label: String)
    ensures
        label@ == device_label(device, pid),
{
    let mut label = copied("CUDA Device ");
    append_decimal(&mut label, device);
    label.append(" / Source PID ");
    append_decimal(&mut label, pid);
    label
}

/// A metadata event.
pub open spec fn meta_event(name: Seq<char>, tid: i64, pid: i64, value: ArgView) -> EventView {
    EventView {
        name,
        ph: "M"@,
        cat: "__metadata"@,
        ts_ns: 0,
        dur_ns: None,
        tid,
        pid,
        args: seq![value],
        id: None,
        bp: None,
    }
}

fn make_meta(name: &str, tid: i64, pid: i64, value: Arg) -> (e: TraceEvent)
    ensures
        e@ == meta_event(name@, tid, pid, value@),
{
    let e = TraceEvent {
        name: copied(name),
        ph: "M",
        cat: "__metadata",
        ts_ns: 0,
        dur_ns: None,
        tid,
        pid,
        args: vec![value],
        id: None,
        bp: None,
    };
    assert(arg_views(e.args@) =~= seq![value@]);
    e
}

/// The order of GPU processes.
pub open spec fn process_sort(pid: i64) -> i64 {
    (-10_000 + pid - 2_000_000_000) as i64
}

/// The name and the place of a GPU process.
pub open spec fn process_naming(s: Scene, key: (i64, i64)) -> Seq<EventView> {
    let pid = gpu_process(s, key.0, key.1);
    seq![
        meta_event("process_name"@, 0, pid, arg("name"@, ValueView::Text(device_label(key.1, key.0)))),
        meta_event("process_sort_index"@, 0, pid, arg("sort_index"@, ValueView::Int(process_sort(pid)))),
    ]
}

/// The name and the place of a track.
pub open spec fn track_naming(tid: i64, pid: i64, label: Seq<char>, sort_index: i64) -> Seq<EventView> {
    seq![
        meta_event("thread_name"@, tid, pid, arg("name"@, ValueView::Text(label))),
        meta_event("thread_sort_index"@, tid, pid, arg("sort_index"@, ValueView::Int(sort_index))),
    ]
}

fn name_track(tid: i64, pid: i64, label: &str, sort_index: i64) -> (events: Vec<TraceEvent>)
    ensures
        event_views(events@) == track_naming(tid, pid, label@, sort_index),
{
    let events = vec![
        make_meta("thread_name", tid, pid, text_arg("name", label)),
        make_meta("thread_sort_index", tid, pid, int_arg("sort_index", sort_index)),
    ];
    assert(event_views(events@) =~= track_naming(tid, pid, label@, sort_index));
    events
}

pub open spec fn process_section(s: Scene) -> Seq<EventView> {
    let keys = ordered(gpu_keys(s));
    concat(keys.len() as int, |i: int| process_naming(s, keys[i]))
}

/// Names the GPU processes.
fn name_processes(plan: &Plan, Ghost(s): Ghost<Scene>) -> (out: Vec<TraceEvent>)
    requires
        plan.covers(s),
    ensures
        event_views(out@) == process_section(s),
{
    let keys = &plan.devices.process_list;
    let mut out: Vec<TraceEvent> = Vec::new();
    let ghost f = |i: int| process_naming(s, keys@[i]);
    proof {
        lemma_pair_keyed();
        assert(event_views(out@) =~= concat(0, f));
    }
    for i in 0..keys.len()
        invariant
            keyed::<(i64, i64)>(),
            plan.covers(s),
            keys == plan.devices.process_list,
            f == (|i: int| process_naming(s, keys@[i])),
            event_views(out@) == concat(i as int, f),
    {
        let key = keys[i];
        assert(keys@.to_set().contains(keys@[i as int]));
        let pid: i64 = number_of(&plan.devices.processes, key);
        let sort: i64 = (-10_000i128 + pid as i128 - GPU_PROCESS_ID_BASE as i128) as i64;
        let label = label_device(key.1, key.0);
        let events = vec![
            make_meta("process_name", 0, pid, text_arg("name", label.as_str())),
            make_meta("process_sort_index", 0, pid, int_arg("sort_index", sort)),
        ];
        assert(event_views(events@) =~= process_naming(s, key));
        append_events(&mut out, events);
    }
    out
}

/// The name of a hardware stream; lanes beside the first are counted.
pub open spec fn stream_label(context: i64, stream: i64, lane: int) -> Seq<char> {
    let plain = "CUDA HW Context "@ + decimal(context as int) + " / Stream "@ + decimal(stream as int);
    if lane == 0 {
        plain
    } else {
        plain + " / Lane "@ + decimal(lane + 1)
    }
}

pub open spec fn stream_naming(s: Scene, lane: Lane<(i64, i64, i64, i64)>) -> Seq<EventView> {
    track_naming(
        lane.tid,
        gpu_process(s, lane.key.0, lane.key.1),
        stream_label(lane.key.2, lane.key.3, lane.lane as int),
        lane.tid,
    )
}

pub open spec fn stream_lanes(s: Scene) -> Seq<Lane<(i64, i64, i64, i64)>> {
    all_lanes(Packing::Disjoint, stream_entries(s), 1)
}

pub open spec fn stream_section(s: Scene) -> Seq<EventView> {
    let lanes = stream_lanes(s);
    concat(lanes.len() as int, |i: int| stream_naming(s, lanes[i]))
}

/// The devices of streams and copy tracks belong to GPU processes.
pub proof fn lemma_tracks_placed(s: Scene)
    requires
        placeable(s),
        forall|i: int| 0 <= i < s.memcpys.len() ==> shown(s, i).contains(#[trigger] primary(s, i)),
    ensures
        forall|k: (i64, i64, i64, i64)| #[trigger] entry_keys(stream_entries(s)).contains(k) ==> gpu_keys(s).contains((k.0, k.1)),
        forall|k: (i64, i64, i64)| #[trigger] copy_track_keys(s).contains(k) ==> gpu_keys(s).contains((k.0, k.1)),
{
    assert forall|k: (i64, i64, i64, i64)| #[trigger] entry_keys(stream_entries(s)).contains(k) implies gpu_keys(s).contains(
        (k.0, k.1),
    ) by {
        let e = stream_entries(s);
        let i = choose|i: int| 0 <= i < e.len() && (#[trigger] e[i]).0 == k;
        if i < s.kernels.len() {
            lemma_kernel_device_placed(s, i);
        } else {
            lemma_copies_placed(s, i - s.kernels.len());
            assert(shown(s, i - s.kernels.len()).contains(primary(s, i - s.kernels.len())));
        }
    }
    assert forall|k: (i64, i64, i64)| #[trigger] copy_track_keys(s).contains(k) implies gpu_keys(s).contains(
        (k.0, k.1),
    ) by {
        let i = choose|i: int| 0 <= i < s.memcpys.len() && #[trigger] copy_on_track(s, i, k);
        lemma_copies_placed(s, i);
    }
}

/// Names the hardware streams.
fn name_streams(plan: &Plan, Ghost(s): Ghost<Scene>) -> (out: Vec<TraceEvent>)
    requires
        plan.covers(s),
        placeable(s),
    ensures
        event_views(out@) == stream_section(s),
{
    let lanes = &plan.streams.streams.lanes;
    let mut out: Vec<TraceEvent> = Vec::new();
    let ghost f = |i: int| stream_naming(s, lanes@[i]);
    let _total: usize = lanes.len();
    proof {
        lemma_pair_keyed();
        lemma_plan_tracks_placed(*plan, s);
        lemma_lane_groups(Packing::Disjoint, stream_entries(s), 1);
        assert(event_views(out@) =~= concat(0, f));
    }
    for i in 0..lanes.len()
        invariant
            keyed::<(i64, i64)>(),
            plan.covers(s),
            lanes == plan.streams.streams.lanes,
            lanes@ == stream_lanes(s),
            forall|i: int|
                0 <= i < lanes@.len() ==> {
                    &&& gpu_keys(s).contains(((#[trigger] lanes@[i]).key.0, lanes@[i].key.1))
                    &&& lanes@[i].lane < lanes@.len()
                },
            f == (|i: int| stream_naming(s, lanes@[i])),
            event_views(out@) == concat(i as int, f),
    {
        let lane = lanes[i];
        assert(plan.devices.processes@.contains_key((lane.key.0, lane.key.1)));
        let pid: i64 = number_of(&plan.devices.processes, (lane.key.0, lane.key.1));
        let mut label = copied("CUDA HW Context ");
        append_decimal(&mut label, lane.key.2);
        label.append(" / Stream ");
        append_decimal(&mut label, lane.key.3);
        if lane.lane != 0 {
            label.append(" / Lane ");
            append_count(&mut label, (lane.lane + 1) as u64);
        }
        append_events(&mut out, name_track(lane.tid, pid, label.as_str(), lane.tid));
    }
    out
}

/// The name of a core timeline lane.
pub open spec fn core_label(lane: int) -> Seq<char> {
    if lane == 0 {
        "CUDA Core Timeline"@
    } else {
        "CUDA Core Timeline / Lane "@ + decimal(lane + 1)
    }
}

pub open spec fn core_naming(s: Scene, lane: Lane<(i64, i64, i64)>) -> Seq<EventView> {
    track_naming(
        lane.tid,
        gpu_process(s, lane.key.0, lane.key.1),
        core_label(lane.lane as int),
        (-300 + lane.lane) as i64,
    )
}

pub open spec fn core_lanes(s: Scene) -> Seq<Lane<(i64, i64, i64)>> {
    all_lanes(Packing::Disjoint, kernel_entries(s), 400_000_000)
}

pub open spec fn core_section(s: Scene) -> Seq<EventView> {
    let lanes = core_lanes(s);
    concat(lanes.len() as int, |i: int| core_naming(s, lanes[i]))
}

/// Names the lanes of the core timelines.
fn name_core_lanes(plan: &Plan, Ghost(s): Ghost<Scene>) -> (out: Vec<TraceEvent>)
    requires
        plan.covers(s),
        placeable(s),
    ensures
        event_views(out@) == core_section(s),
{
    let lanes = &plan.launch.core.lanes;
    let mut out: Vec<TraceEvent> = Vec::new();
    let ghost f = |i: int| core_naming(s, lanes@[i]);
    let _total: usize = lanes.len();
    proof {
        lemma_pair_keyed();
        lemma_plan_groups_placed(*plan, s);
        lemma_lane_groups(Packing::Disjoint, kernel_entries(s), 400_000_000);
        assert(event_views(out@) =~= concat(0, f));
    }
    for i in 0..lanes.len()
        invariant
            keyed::<(i64, i64)>(),
            plan.covers(s),
            lanes == plan.launch.core.lanes,
            lanes@ == core_lanes(s),
            forall|i: int|
                0 <= i < lanes@.len() ==> {
                    &&& gpu_keys(s).contains(((#[trigger] lanes@[i]).key.0, lanes@[i].key.1))
                    &&& lanes@[i].lane < lanes@.len()
                },
            f == (|i: int| core_naming(s, lanes@[i])),
            event_views(out@) == concat(i as int, f),
    {
        let lane = lanes[i];
        assert(plan.devices.processes@.contains_key((lane.key.0, lane.key.1)));
        let pid: i64 = number_of(&plan.devices.processes, (lane.key.0, lane.key.1));
        let mut label = copied("CUDA Core Timeline");
        if lane.lane != 0 {
            label = copied("CUDA Core Timeline / Lane ");
            append_count(&mut label, (lane.lane + 1) as u64);
        }
        let sort: i64 = (-300i128 + lane.lane as i128) as i64;
        append_events(&mut out, name_track(lane.tid, pid, label.as_str(), sort));
    }
    out
}

/// The place of a copy track among the tracks of its device.
pub open spec fn copy_track_sort(track: i64) -> i64 {
    if track == 2 {
        (-200) as i64
    } else if track == 1 {
        (-190) as i64
    } else {
        (-180) as i64
    }
}

pub open spec fn copy_track_naming(s: Scene, key: (i64, i64, i64)) -> Seq<EventView> {
    track_naming(
        copy_tid(s, key),
        gpu_process(s, key.0, key.1),
        copy_track_text(key.2),
        copy_track_sort(key.2),
    )
}

pub open spec fn copy_track_section(s: Scene) -> Seq<EventView> {
    let keys = ordered(copy_track_keys(s));
    concat(keys.len() as int, |i: int| copy_track_naming(s, keys[i]))
}

/// Names the copy tracks.
fn name_copy_tracks(plan: &Plan, Ghost(s): Ghost<Scene>) -> (out: Vec<TraceEvent>)
    requires
        plan.covers(s),
        placeable(s),
    ensures
        event_views(out@) == copy_track_section(s),
{
    let keys = &plan.streams.copy_track_list;
    let mut out: Vec<TraceEvent> = Vec::new();
    let ghost f = |i: int| copy_track_naming(s, keys@[i]);
    proof {
        lemma_integers_keyed();
        lemma_pair_keyed();
        lemma_triple_keyed::<i64, i64, i64>();
        lemma_plan_tracks_placed(*plan, s);
        assert(event_views(out@) =~= concat(0, f));
    }
    for i in 0..keys.len()
        invariant
            keyed::<(i64, i64)>(),
            keyed::<(i64, i64, i64)>(),
            plan.covers(s),
            forall|k: (i64, i64, i64)| #[trigger]
                copy_track_keys(s).contains(k) ==> gpu_keys(s).contains((k.0, k.1)),
            keys == plan.streams.copy_track_list,
            f == (|i: int| copy_track_naming(s, keys@[i])),
            event_views(out@) == concat(i as int, f),
    {
        let key = keys[i];
        assert(keys@.to_set().contains(keys@[i as int]));
        assert(copy_track_keys(s).contains(key));
        assert(plan.devices.processes@.contains_key((key.0, key.1)));
        assert(plan.streams.copy_tracks@.contains_key(key));
        let pid: i64 = number_of(&plan.devices.processes, (key.0, key.1));
        let tid: i64 = number_of(&plan.streams.copy_tracks, key);
        let sort: i64 = match key.2 {
            2 => -200,
            1 => -190,
            _ => -180,
        };
        append_events(&mut out, name_track(tid, pid, copy_track_label(key.2), sort));
    }
    out
}

/// What a track of a source thread shows.
#[derive(Clone, Copy)]
pub enum ThreadTrack {
    Projected,
    Nvtx,
    Runtime,
}

pub open spec fn kind_text(kind: ThreadTrack) -> Seq<char> {
    match kind {
        ThreadTrack::Projected => "NVTX Kernel "@,
        ThreadTrack::Nvtx => "NVTX Thread "@,
        ThreadTrack::Runtime => "CUDA API "@,
    }
}

/// Projected ranges come before ranges, and ranges before API calls.
pub open spec fn kind_order(kind: ThreadTrack) -> int {
    match kind {
        ThreadTrack::Projected => 0,
        ThreadTrack::Nvtx => 1,
        ThreadTrack::Runtime => 2,
    }
}

/// API lanes are always counted; of the lanes of a projected track only those
/// beside the first are.
pub open spec fn thread_label(kind: ThreadTrack, tid: i64, lane: int) -> Seq<char> {
    let plain = kind_text(kind) + decimal(tid as int);
    if kind is Runtime || lane > 0 {
        plain + " / Lane "@ + decimal(lane + 1)
    } else {
        plain
    }
}

/// How many lanes the group with the most lanes has.
pub open spec fn widest(lanes: Seq<Lane<(i64, i64, i64)>>) -> int
    decreases lanes.len(),
{
    if lanes.len() == 0 {
        0
    } else {
        max(widest(lanes.drop_last()), lanes.last().lane + 1)
    }
}

/// How many places each kind of track of a thread has: twenty, or as many as the
/// thread with the most lanes of a kind takes.
pub open spec fn lane_room(s: Scene) -> int {
    max(20, max(widest(projected_lanes(s)), widest(call_lanes(s))))
}

/// The place of a thread's track among the tracks of its device.
pub open spec fn thread_sort(s: Scene, key: (i64, i64, i64), kind: ThreadTrack, lane: int) -> i64 {
    let room = lane_room(s);
    (1_000_000 + 5 * ((thread_rank(s, key) * room) as u64) + kind_order(kind) * room + lane) as i64
}

pub open spec fn thread_naming(s: Scene, kind: ThreadTrack, lane: Lane<(i64, i64, i64)>) -> Seq<EventView> {
    track_naming(
        lane.tid,
        gpu_process(s, lane.key.0, lane.key.1),
        thread_label(kind, lane.key.2, lane.lane as int),
        thread_sort(s, lane.key, kind, lane.lane as int),
    )
}

fn name_thread_track(
    plan: &Plan,
    kind: ThreadTrack,
    lane: &Lane<(i64, i64, i64)>,
    room: usize,
    Ghost(s): Ghost<Scene>,
) -> (events: Vec<TraceEvent>)
    requires
        plan.covers(s),
        room == lane_room(s),
        gpu_keys(s).contains((lane.key.0, lane.key.1)),
        source_threads(s).contains(lane.key),
        lane.lane < usize::MAX,
    ensures
        event_views(events@) == thread_naming(s, kind, *lane),
{
    proof {
        lemma_integers_keyed();
        lemma_pair_keyed();
        lemma_triple_keyed::<i64, i64, i64>();
        assert(plan.devices.processes@.contains_key((lane.key.0, lane.key.1)));
        assert(plan.ranks@.contains_key(lane.key));
    }
    let pid: i64 = number_of(&plan.devices.processes, (lane.key.0, lane.key.1));
    let rank: usize = match plan.ranks.get(&lane.key) {
        Some(n) => *n,
        None => 0,
    };
    let numbered_lane = matches!(kind, ThreadTrack::Runtime) || lane.lane > 0;
    let mut label = copied(
        match kind {
            ThreadTrack::Projected => "NVTX Kernel ",
            ThreadTrack::Nvtx => "NVTX Thread ",
            ThreadTrack::Runtime => "CUDA API ",
        },
    );
    append_decimal(&mut label, lane.key.2);
    if numbered_lane {
        label.append(" / Lane ");
        append_count(&mut label, (lane.lane + 1) as u64);
    }
    assert(rank * room <= u128::MAX) by (nonlinear_arith)
        requires
            0 <= rank <= u64::MAX,
            0 <= room <= u64::MAX,
    ;
    let threads: u64 = (rank as u128 * room as u128) as u64;
    let kinds: i128 = match kind {
        ThreadTrack::Projected => 0,
        ThreadTrack::Nvtx => room as i128,
        ThreadTrack::Runtime => 2 * room as i128,
    };
    let sort: i64 = (1_000_000i128 + 5 * (threads as i128) + kinds + lane.lane as i128) as i64;
    name_track(lane.tid, pid, label.as_str(), sort)
}

pub open spec fn lane_section(s: Scene, kind: ThreadTrack, lanes: Seq<Lane<(i64, i64, i64)>>) -> Seq<EventView> {
    concat(lanes.len() as int, |i: int| thread_naming(s, kind, lanes[i]))
}

/// Names the tracks of source threads.
fn name_thread_tracks(
    plan: &Plan,
    kind: ThreadTrack,
    lanes: &Vec<Lane<(i64, i64, i64)>>,
    room: usize,
    Ghost(s): Ghost<Scene>,
) -> (out: Vec<TraceEvent>)
    requires
        plan.covers(s),
        room == lane_room(s),
        forall|i: int|
            0 <= i < lanes@.len() ==> {
                &&& gpu_keys(s).contains(((#[trigger] lanes@[i]).key.0, lanes@[i].key.1))
                &&& source_threads(s).contains(lanes@[i].key)
                &&& lanes@[i].lane < usize::MAX
            },
    ensures
        event_views(out@) == lane_section(s, kind, lanes@),
{
    let mut out: Vec<TraceEvent> = Vec::new();
    let ghost f = |i: int| thread_naming(s, kind, lanes@[i]);
    assert(event_views(out@) =~= concat(0, f));
    for i in 0..lanes.len()
        invariant
            plan.covers(s),
            room == lane_room(s),
            forall|i: int|
                0 <= i < lanes@.len() ==> {
                    &&& gpu_keys(s).contains(((#[trigger] lanes@[i]).key.0, lanes@[i].key.1))
                    &&& source_threads(s).contains(lanes@[i].key)
                    &&& lanes@[i].lane < usize::MAX
                },
            f == (|i: int| thread_naming(s, kind, lanes@[i])),
            event_views(out@) == concat(i as int, f),
    {
        append_events(&mut out, name_thread_track(plan, kind, &lanes[i], room, Ghost(s)));
    }
    out
}

pub open spec fn projected_lanes(s: Scene) -> Seq<Lane<(i64, i64, i64)>> {
    all_lanes(Packing::Nested, projected_entries(s), 1_000_000_000)
}

pub open spec fn call_lanes(s: Scene) -> Seq<Lane<(i64, i64, i64)>> {
    all_lanes(Packing::Disjoint, call_entries(s), 1_100_000_000)
}

/// The one track that the ranges of a thread have under a device.
pub open spec fn nvtx_lanes(s: Scene) -> Seq<Lane<(i64, i64, i64)>> {
    let keys = ordered(nvtx_keys(s));
    Seq::new(keys.len(), |i: int| Lane { key: keys[i], tid: nvtx_tid(s, keys[i]), lane: 0 })
}

/// Every metadata event: processes, streams, core timeline lanes, copy tracks,
/// then the tracks of source threads.
pub open spec fn metadata_events(s: Scene) -> Seq<EventView> {
    process_section(s) + stream_section(s) + core_section(s) + copy_track_section(s) + lane_section(
        s,
        ThreadTrack::Projected,
        projected_lanes(s),
    ) + lane_section(s, ThreadTrack::Runtime, call_lanes(s)) + lane_section(s, ThreadTrack::Nvtx, nvtx_lanes(s))
}

proof fn lemma_plan_groups_placed(plan: Plan, s: Scene)
    requires
        plan.covers(s),
        placeable(s),
    ensures
        forall|k: (i64, i64, i64)| #[trigger]
            entry_keys(kernel_entries(s)).contains(k) ==> gpu_keys(s).contains((k.0, k.1)),
        forall|k: (i64, i64, i64)| #[trigger]
            entry_keys(call_entries(s)).contains(k) ==> gpu_keys(s).contains((k.0, k.1)),
        forall|k: (i64, i64, i64)| #[trigger]
            entry_keys(projected_entries(s)).contains(k) ==> gpu_keys(s).contains((k.0, k.1)),
        forall|k: (i64, i64, i64)| #[trigger] nvtx_keys(s).contains(k) ==> gpu_keys(s).contains((k.0, k.1)),
{
    assert forall|c: int| 0 <= c < s.runtime.len() implies lists(
        #[trigger] ordered(call_devices(s, c)),
        call_devices(s, c),
    ) by {
        assert(lists_devices(plan.launch.call_devices@[c]@, call_devices(s, c)));
    }
    assert forall|r: int| 0 <= r < s.nvtx.len() implies lists(
        #[trigger] ordered(bound_devices(s, r)),
        bound_devices(s, r),
    ) by {
        assert(lists_devices(plan.ranges.bound_devices@[r]@, bound_devices(s, r)));
    }
    lemma_groups_placed(s);
}

proof fn lemma_plan_tracks_placed(plan: Plan, s: Scene)
    requires
        plan.covers(s),
        placeable(s),
    ensures
        forall|k: (i64, i64, i64, i64)| #[trigger] entry_keys(stream_entries(s)).contains(k) ==> gpu_keys(s).contains((k.0, k.1)),
        forall|k: (i64, i64, i64)| #[trigger] copy_track_keys(s).contains(k) ==> gpu_keys(s).contains((k.0, k.1)),
{
    assert forall|i: int| 0 <= i < s.memcpys.len() implies shown(s, i).contains(#[trigger] primary(s, i)) by {
        assert(plan.devices.primary@[i] == primary(s, i));
    }
    lemma_tracks_placed(s);
}

/// The tracks of ranges as single lanes.
fn single_lanes(plan: &Plan, Ghost(s): Ghost<Scene>) -> (lanes: Vec<Lane<(i64, i64, i64)>>)
    requires
        plan.covers(s),
    ensures
        lanes@ == nvtx_lanes(s),
{
    proof {
        lemma_integers_keyed();
        lemma_triple_keyed::<i64, i64, i64>();
    }
    let keys = &plan.ranges.track_list;
    let mut lanes: Vec<Lane<(i64, i64, i64)>> = Vec::new();
    for i in 0..keys.len()
        invariant
            keyed::<(i64, i64, i64)>(),
            plan.covers(s),
            keys == plan.ranges.track_list,
            lanes@ == nvtx_lanes(s).take(i as int),
    {
        assert(keys@.to_set().contains(keys@[i as int]));
        assert(plan.ranges.tracks@.contains_key(keys@[i as int]));
        let tid: i64 = number_of(&plan.ranges.tracks, keys[i]);
        lanes.push(Lane { key: keys[i], tid, lane: 0 });
        assert(lanes@ =~= nvtx_lanes(s).take(i + 1));
    }
    assert(nvtx_lanes(s).take(nvtx_lanes(s).len() as int) =~= nvtx_lanes(s));
    lanes
}

fn larger_size(a: usize, b: usize) -> (r: usize)
    ensures
        r == max(a as int, b as int),
{
    if a >= b {
        a
    } else {
        b
    }
}

/// How many lanes the group with the most lanes has.
fn widest_of(lanes: &Vec<Lane<(i64, i64, i64)>>) -> (n: usize)
    requires
        forall|i: int| 0 <= i < lanes@.len() ==> (#[trigger] lanes@[i]).lane < usize::MAX,
    ensures
        n == widest(lanes@),
{
    let mut n: usize = 0;
    for i in 0..lanes.len()
        invariant
            forall|i: int| 0 <= i < lanes@.len() ==> (#[trigger] lanes@[i]).lane < usize::MAX,
            n == widest(lanes@.take(i as int)),
    {
        assert(lanes@.take(i + 1).drop_last() =~= lanes@.take(i as int));
        n = larger_size(n, lanes[i].lane + 1);
    }
    assert(lanes@.take(lanes@.len() as int) =~= lanes@);
    n
}

/// Every lane has its place in the room of its kind.
pub proof fn lemma_widest(lanes: Seq<Lane<(i64, i64, i64)>>, i: int)
    requires
        0 <= i < lanes.len(),
    ensures
        lanes[i].lane < widest(lanes),
    decreases lanes.len(),
{
    if i < lanes.len() - 1 {
        lemma_widest(lanes.drop_last(), i);
    }
}

/// Names and orders all processes and tracks of a timeline.
pub(crate) fn name_everything(plan: &Plan, Ghost(s): Ghost<Scene>) -> (out: Vec<TraceEvent>)
    requires
        plan.covers(s),
        placeable(s),
    ensures
        event_views(out@) == metadata_events(s),
{
    let mut out = name_processes(plan, Ghost(s));
    append_events(&mut out, name_streams(plan, Ghost(s)));
    append_events(&mut out, name_core_lanes(plan, Ghost(s)));
    append_events(&mut out, name_copy_tracks(plan, Ghost(s)));
    let singles = single_lanes(plan, Ghost(s));
    let _projected: usize = plan.ranges.projected.lanes.len();
    let _calls: usize = plan.launch.calls.lanes.len();
    proof {
        lemma_plan_groups_placed(*plan, s);
        lemma_lane_groups(Packing::Nested, projected_entries(s), 1_000_000_000);
        lemma_lane_groups(Packing::Disjoint, call_entries(s), 1_100_000_000);
        assert forall|i: int| 0 <= i < singles@.len() implies nvtx_keys(s).contains((#[trigger] singles@[i]).key) by {
            let keys = plan.ranges.track_list@;
            assert(keys.to_set().contains(keys[i]));
        }
    }
    let room: usize = larger_size(
        20,
        larger_size(widest_of(&plan.ranges.projected.lanes), widest_of(&plan.launch.calls.lanes)),
    );
    append_events(&mut out, name_thread_tracks(plan, ThreadTrack::Projected, &plan.ranges.projected.lanes, room, Ghost(s)));
    append_events(&mut out, name_thread_tracks(plan, ThreadTrack::Runtime, &plan.launch.calls.lanes, room, Ghost(s)));
    append_events(&mut out, name_thread_tracks(plan, ThreadTrack::Nvtx, &singles, room, Ghost(s)));
    out
}

} // verus!
