//! What a timeline is drawn from, and where everything in it is placed.
use crate::devices::{
    active_devices, copy_devices, copy_track, copy_track_rank, lemma_copies_have_devices, primary_copy_device,
    primary_device, process_devices, resolve_device_assignments, set_views,
};
use crate::flow_ids::{namespace, namespace_of, NAMESPACES};
use crate::model::{
    numbered, pid_of, source_pid, source_tid, tid_of, Kernel, Memcpy, NvtxRange, RuntimeCall, GPU_PROCESS_ID_BASE,
};
use crate::order::{
    keyed, lemma_integers_keyed, lemma_lists_is_ordered, lemma_pair_keyed, lemma_quad_keyed,
    lemma_triple_keyed, lists, ordered, ordered_vec,
};
use crate::seqs::{
    concat, lemma_concat_entry, lemma_concat_has, lemma_index_of, lemma_occurrences_bound, lemma_take_set, occurrences,
};
use crate::tracks::{
    distinct_items, entry_keys, has_item, lane_track, number_keys, numbering, plan_lanes, rank, LanePlan, Packing,
};
use std::collections::{BTreeMap, BTreeSet};
use vstd::prelude::*;
use vstd::std_specs::iter::IteratorSpec;

verus! {

/// The records of a trace together with the report's name and its reference instants.
pub struct Scene {
    pub report: Seq<char>,
    pub kernels: Seq<Kernel>,
    pub memcpys: Seq<Memcpy>,
    pub runtime: Seq<RuntimeCall>,
    pub nvtx: Seq<NvtxRange>,
    pub origin_ns: i64,
    pub anchor_ns: i64,
}

/// The input of the timeline.
pub struct EmitInput<'a> {
    pub report: &'a str,
    pub kernels: &'a [Kernel],
    pub memcpys: &'a [Memcpy],
    pub runtime: &'a [RuntimeCall],
    pub nvtx: &'a [NvtxRange],
    pub origin_ns: i64,
    pub anchor_ns: i64,
}

impl<'a> View for EmitInput<'a> {
    type V = Scene;

    open spec fn view(&self) -> Scene {
        Scene {
            report: self.report@,
            kernels: self.kernels@,
            memcpys: self.memcpys@,
            runtime: self.runtime@,
            nvtx: self.nvtx@,
            origin_ns: self.origin_ns,
            anchor_ns: self.anchor_ns,
        }
    }
}

/// A call is shown when it has an identifier.
pub open spec fn visible(call: RuntimeCall) -> bool {
    call.event_id is Some
}

pub open spec fn visible_pid(runtime: Seq<RuntimeCall>, c: int) -> Seq<i64> {
    if visible(runtime[c]) {
        seq![pid_of(runtime[c].global_tid)]
    } else {
        Seq::empty()
    }
}

/// The processes of visible calls and of ranges.
pub open spec fn extra_pids(s: Scene) -> Seq<i64> {
    concat(s.runtime.len() as int, |c: int| visible_pid(s.runtime, c)) + Seq::new(
        s.nvtx.len(),
        |r: int| s.nvtx[r].pid,
    )
}

/// The devices of every process of the timeline.
pub open spec fn scene_devices(s: Scene) -> Map<i64, Set<i64>> {
    process_devices(s.kernels, s.memcpys, extra_pids(s))
}

/// The process and the device that a kernel ran on.
pub open spec fn ran_on(s: Scene, k: int, key: (i64, i64)) -> bool {
    pid_of(s.kernels[k].global_pid) == key.0 && s.kernels[k].device == key.1
}

/// The GPU processes: a device number is local to its source process. A kernel whose
/// device has no number has a place too.
pub open spec fn gpu_keys(s: Scene) -> Set<(i64, i64)> {
    gpu_keys_upto(s, s.kernels.len() as int)
}

pub open spec fn gpu_keys_upto(s: Scene, n: int) -> Set<(i64, i64)> {
    Set::new(
        |key: (i64, i64)|
            {
                ||| scene_devices(s).contains_key(key.0) && scene_devices(s)[key.0].contains(key.1)
                ||| exists|k: int| 0 <= k < n && #[trigger] ran_on(s, k, key)
            },
    )
}

/// Every kernel has a place.
pub proof fn lemma_kernel_device_placed(s: Scene, k: int)
    requires
        0 <= k < s.kernels.len(),
    ensures
        gpu_keys(s).contains((pid_of(s.kernels[k].global_pid), s.kernels[k].device)),
{
    assert(ran_on(s, k, (pid_of(s.kernels[k].global_pid), s.kernels[k].device)));
}

/// The process number of a device of a source process.
pub open spec fn gpu_process(s: Scene, pid: i64, device: i64) -> i64 {
    numbered(2_000_000_000, rank(gpu_keys(s), (pid, device)))
}

/// The devices on which a copy is shown.
pub open spec fn shown(s: Scene, i: int) -> Set<i64> {
    copy_devices(s.kernels, s.memcpys, s.memcpys[i])
}

/// The device on whose stream a copy is drawn.
pub open spec fn primary(s: Scene, i: int) -> i64 {
    primary_device(s.memcpys[i], shown(s, i))
}

pub open spec fn kernel_stream_key(s: Scene, k: int) -> (i64, i64, i64, i64) {
    let kernel = s.kernels[k];
    (pid_of(kernel.global_pid), kernel.device, kernel.context, kernel.stream)
}

pub open spec fn copy_stream_key(s: Scene, i: int) -> (i64, i64, i64, i64) {
    let copy = s.memcpys[i];
    (pid_of(copy.global_pid), primary(s, i), copy.context, copy.stream)
}

/// What ran on each hardware stream: kernels, then copies.
pub open spec fn stream_entries(s: Scene) -> Seq<((i64, i64, i64, i64), (i64, i64, usize))> {
    let n = s.kernels.len() as int;
    Seq::new(
        s.kernels.len() + s.memcpys.len(),
        |i: int|
            if i < n {
                (kernel_stream_key(s, i), (s.kernels[i].start, s.kernels[i].end, i as usize))
            } else {
                (copy_stream_key(s, i - n), (s.memcpys[i - n].start, s.memcpys[i - n].end, i as usize))
            },
    )
}

/// The track of a kernel on its hardware stream.
pub open spec fn kernel_stream_tid(s: Scene, k: int) -> i64 {
    lane_track(Packing::Disjoint, stream_entries(s), 1, kernel_stream_key(s, k), k as usize)
}

/// The track of a copy on the hardware stream of its device.
pub open spec fn copy_stream_tid(s: Scene, i: int) -> i64 {
    lane_track(Packing::Disjoint, stream_entries(s), 1, copy_stream_key(s, i), (s.kernels.len() + i) as usize)
}

pub open spec fn copy_on_track(s: Scene, i: int, key: (i64, i64, i64)) -> bool {
    &&& pid_of(s.memcpys[i].global_pid) == key.0
    &&& shown(s, i).contains(key.1)
    &&& copy_track(s.memcpys[i].copy_kind) == key.2
}

/// The copy tracks: one per device and kind of traffic.
pub open spec fn copy_track_keys(s: Scene) -> Set<(i64, i64, i64)> {
    copy_track_keys_upto(s, s.memcpys.len() as int)
}

pub open spec fn copy_track_keys_upto(s: Scene, m: int) -> Set<(i64, i64, i64)> {
    Set::new(|key: (i64, i64, i64)| exists|i: int| 0 <= i < m && #[trigger] copy_on_track(s, i, key))
}

pub open spec fn copy_tid(s: Scene, key: (i64, i64, i64)) -> i64 {
    numbered(500_000_000, rank(copy_track_keys(s), key))
}

pub open spec fn kernel_group(s: Scene, k: int) -> (i64, i64, i64) {
    (pid_of(s.kernels[k].global_pid), s.kernels[k].device, 0)
}

/// The kernels of each device, for its core timeline.
pub open spec fn kernel_entries(s: Scene) -> Seq<((i64, i64, i64), (i64, i64, usize))> {
    Seq::new(
        s.kernels.len(),
        |k: int| (kernel_group(s, k), (s.kernels[k].start, s.kernels[k].end, k as usize)),
    )
}

/// The core timeline track of a kernel.
pub open spec fn core_tid(s: Scene, k: int) -> i64 {
    lane_track(Packing::Disjoint, kernel_entries(s), 400_000_000, kernel_group(s, k), k as usize)
}

pub open spec fn kernel_launched_on(s: Scene, c: int, d: i64, k: int) -> bool {
    s.kernels[k].launch_call == Some(c as usize) && s.kernels[k].device == d
}

pub open spec fn copy_launched_on(s: Scene, c: int, d: i64, i: int) -> bool {
    s.memcpys[i].launch_call == Some(c as usize) && shown(s, i).contains(d)
}

pub open spec fn linked_devices_upto(s: Scene, c: int, n: int, m: int) -> Set<i64> {
    Set::new(
        |d: i64|
            {
                ||| exists|k: int| 0 <= k < n && #[trigger] kernel_launched_on(s, c, d, k)
                ||| exists|i: int| 0 <= i < m && #[trigger] copy_launched_on(s, c, d, i)
            },
    )
}

/// The devices that ran what a call started.
pub open spec fn linked_devices(s: Scene, c: int) -> Set<i64> {
    linked_devices_upto(s, c, s.kernels.len() as int, s.memcpys.len() as int)
}

/// The devices under which a call is shown: those it started work on, or else all
/// devices of its process.
pub open spec fn call_devices(s: Scene, c: int) -> Set<i64> {
    if !linked_devices(s, c).is_empty() {
        linked_devices(s, c)
    } else if visible(s.runtime[c]) {
        scene_devices(s)[pid_of(s.runtime[c].global_tid)]
    } else {
        Set::empty()
    }
}

pub open spec fn call_group(s: Scene, c: int, device: i64) -> (i64, i64, i64) {
    (pid_of(s.runtime[c].global_tid), device, tid_of(s.runtime[c].global_tid))
}

pub open spec fn call_block(s: Scene, c: int) -> Seq<((i64, i64, i64), (i64, i64, usize))> {
    let devices = ordered(call_devices(s, c));
    Seq::new(
        devices.len(),
        |j: int| (call_group(s, c, devices[j]), (s.runtime[c].start, s.runtime[c].end, c as usize)),
    )
}

/// The calls of each thread, under each of their devices.
pub open spec fn call_entries(s: Scene) -> Seq<((i64, i64, i64), (i64, i64, usize))> {
    concat(s.runtime.len() as int, |c: int| call_block(s, c))
}

pub open spec fn call_tid(s: Scene, c: int, device: i64) -> i64 {
    lane_track(Packing::Disjoint, call_entries(s), 1_100_000_000, call_group(s, c, device), c as usize)
}

pub open spec fn range_group(s: Scene, r: int, device: i64) -> (i64, i64, i64) {
    (s.nvtx[r].pid, device, s.nvtx[r].tid)
}

/// The devices with kernels launched from inside a range.
pub open spec fn bound_devices(s: Scene, r: int) -> Set<i64> {
    s.nvtx[r].kernel_bounds@.dom()
}

pub open spec fn projected_block(s: Scene, r: int) -> Seq<((i64, i64, i64), (i64, i64, usize))> {
    let devices = ordered(bound_devices(s, r));
    Seq::new(
        devices.len(),
        |j: int|
            (
                range_group(s, r, devices[j]),
                (
                    s.nvtx[r].kernel_bounds@[devices[j]].0,
                    s.nvtx[r].kernel_bounds@[devices[j]].1,
                    r as usize,
                ),
            ),
    )
}

/// The kernel envelopes of the ranges of each thread, per device.
pub open spec fn projected_entries(s: Scene) -> Seq<((i64, i64, i64), (i64, i64, usize))> {
    concat(s.nvtx.len() as int, |r: int| projected_block(s, r))
}

/// The track of a projected range: nested envelopes share a lane, crossing ones do not.
pub open spec fn projected_tid(s: Scene, r: int, device: i64) -> i64 {
    lane_track(Packing::Nested, projected_entries(s), 1_000_000_000, range_group(s, r, device), r as usize)
}

/// The devices under which a range is shown: those it projects to, or else all
/// devices of its process.
pub open spec fn range_devices(s: Scene, r: int) -> Set<i64> {
    if bound_devices(s, r).is_empty() {
        scene_devices(s)[s.nvtx[r].pid]
    } else {
        bound_devices(s, r)
    }
}

pub open spec fn range_on_track(s: Scene, r: int, key: (i64, i64, i64)) -> bool {
    &&& s.nvtx[r].pid == key.0
    &&& range_devices(s, r).contains(key.1)
    &&& s.nvtx[r].tid == key.2
}

pub open spec fn nvtx_keys(s: Scene) -> Set<(i64, i64, i64)> {
    nvtx_keys_upto(s, s.nvtx.len() as int)
}

pub open spec fn nvtx_keys_upto(s: Scene, n: int) -> Set<(i64, i64, i64)> {
    Set::new(|key: (i64, i64, i64)| exists|r: int| 0 <= r < n && #[trigger] range_on_track(s, r, key))
}

pub open spec fn nvtx_tid(s: Scene, key: (i64, i64, i64)) -> i64 {
    numbered(1_200_000_000, rank(nvtx_keys(s), key))
}

/// The source threads that have tracks under a device.
pub open spec fn source_threads(s: Scene) -> Set<(i64, i64, i64)> {
    entry_keys(projected_entries(s)).union(entry_keys(call_entries(s))).union(nvtx_keys(s))
}

pub open spec fn thread_devices(threads: Seq<(i64, i64, i64)>) -> Seq<(i64, i64)> {
    Seq::new(threads.len(), |i: int| (threads[i].0, threads[i].1))
}

/// How many threads of the same device come before this one.
pub open spec fn thread_rank(s: Scene, key: (i64, i64, i64)) -> nat {
    occurrences(
        thread_devices(ordered(source_threads(s))).take(rank(source_threads(s), key)),
        (key.0, key.1),
    )
}

/// Everything that the timeline refers to has a place on it: launches point at
/// calls, and the devices of calls and ranges belong to their processes.
pub open spec fn placeable(s: Scene) -> bool {
    &&& forall|k: int| 0 <= k < s.kernels.len() ==> #[trigger] kernel_placed(s, k)
    &&& forall|i: int| 0 <= i < s.memcpys.len() ==> #[trigger] copy_placed(s, i)
    &&& forall|c: int| 0 <= c < s.runtime.len() ==> #[trigger] call_placed(s, c)
    &&& forall|r: int| 0 <= r < s.nvtx.len() ==> #[trigger] range_placed(s, r)
}

pub open spec fn kernel_placed(s: Scene, k: int) -> bool {
    s.kernels[k].launch_call matches Some(c) ==> c < s.runtime.len()
}

pub open spec fn copy_placed(s: Scene, i: int) -> bool {
    s.memcpys[i].launch_call matches Some(c) ==> c < s.runtime.len()
}

pub open spec fn call_placed(s: Scene, c: int) -> bool {
    forall|d: i64| #[trigger]
        call_devices(s, c).contains(d) ==> gpu_keys(s).contains((pid_of(s.runtime[c].global_tid), d))
}

pub open spec fn range_placed(s: Scene, r: int) -> bool {
    forall|d: i64| #[trigger] bound_devices(s, r).contains(d) ==> gpu_keys(s).contains((s.nvtx[r].pid, d))
}

/// `v` lists the elements of `set` in increasing order.
pub open spec fn lists_devices(v: Seq<i64>, set: Set<i64>) -> bool {
    v == ordered(set) && lists(v, set)
}

/// The devices of processes and copies.
pub struct DevicePlan {
    pub by_process: BTreeMap<i64, BTreeSet<i64>>,
    pub processes: BTreeMap<(i64, i64), i64>,
    pub process_list: Vec<(i64, i64)>,
    pub shown: Vec<Vec<i64>>,
    pub primary: Vec<i64>,
}

impl DevicePlan {
    pub open spec fn covers(self, s: Scene) -> bool {
        &&& set_views(self.by_process@) == scene_devices(s)
        &&& numbering(self.processes@, gpu_keys(s), 2_000_000_000)
        &&& self.process_list@ == ordered(gpu_keys(s))
        &&& lists(self.process_list@, gpu_keys(s))
        &&& self.shown@.len() == s.memcpys.len()
        &&& forall|i: int| 0 <= i < s.memcpys.len() ==> lists_devices((#[trigger] self.shown@[i])@, shown(s, i))
        &&& self.primary@.len() == s.memcpys.len()
        &&& forall|i: int|
            0 <= i < s.memcpys.len() ==> #[trigger] self.primary@[i] == primary(s, i) && shown(s, i).contains(
                self.primary@[i],
            )
    }
}

proof fn lemma_in_concat_pids(runtime: Seq<RuntimeCall>, n: int, c: int)
    requires
        0 <= c < n <= runtime.len(),
        visible(runtime[c]),
    ensures
        concat(n, |c: int| visible_pid(runtime, c)).contains(pid_of(runtime[c].global_tid)),
    decreases n,
{
    let f = |c: int| visible_pid(runtime, c);
    let all = concat(n, f);
    let pid = pid_of(runtime[c].global_tid);
    if c == n - 1 {
        assert(all[all.len() - 1] == pid);
    } else {
        lemma_in_concat_pids(runtime, n - 1, c);
        let before = concat(n - 1, f);
        let i = choose|i: int| 0 <= i < before.len() && before[i] == pid;
        assert(all[i] == pid);
    }
}

pub proof fn lemma_not_empty(set: Set<i64>, d: i64)
    requires
        set.contains(d),
    ensures
        !set.is_empty(),
{
}

/// A process with a visible call or a range has devices.
pub proof fn lemma_extra_pids(s: Scene)
    ensures
        forall|c: int|
            0 <= c < s.runtime.len() && visible(#[trigger] s.runtime[c]) ==> scene_devices(s).contains_key(
                pid_of(s.runtime[c].global_tid),
            ),
        forall|r: int| 0 <= r < s.nvtx.len() ==> scene_devices(s).contains_key((#[trigger] s.nvtx[r]).pid),
{
    let calls = concat(s.runtime.len() as int, |c: int| visible_pid(s.runtime, c));
    let extra = extra_pids(s);
    assert forall|c: int| 0 <= c < s.runtime.len() && visible(#[trigger] s.runtime[c]) implies scene_devices(
        s,
    ).contains_key(pid_of(s.runtime[c].global_tid)) by {
        lemma_in_concat_pids(s.runtime, s.runtime.len() as int, c);
        let pid = pid_of(s.runtime[c].global_tid);
        let i = choose|i: int| 0 <= i < calls.len() && calls[i] == pid;
        assert(extra[i] == pid);
    }
    assert forall|r: int| 0 <= r < s.nvtx.len() implies scene_devices(s).contains_key((#[trigger] s.nvtx[r]).pid) by {
        assert(extra[calls.len() + r] == s.nvtx[r].pid);
    }
}

/// The devices of a copy belong to its process.
pub proof fn lemma_copies_placed(s: Scene, i: int)
    requires
        0 <= i < s.memcpys.len(),
    ensures
        forall|d: i64| #[trigger]
            shown(s, i).contains(d) ==> gpu_keys(s).contains((pid_of(s.memcpys[i].global_pid), d)),
        !shown(s, i).is_empty(),
{
    lemma_copies_have_devices(s.kernels, s.memcpys, s.memcpys[i]);
    let pid = pid_of(s.memcpys[i].global_pid);
    assert forall|d: i64| #[trigger] shown(s, i).contains(d) implies gpu_keys(s).contains((pid, d)) by {
        assert(active_devices(s.kernels, s.memcpys, pid).contains(d));
        lemma_not_empty(active_devices(s.kernels, s.memcpys, pid), d);
    }
}

/// Finds the devices of processes and copies and numbers the GPU processes.
pub fn plan_devices(input: &EmitInput<'_>) -> (plan: DevicePlan)
    ensures
        plan.covers(input@),
{
    let ghost s = input@;
    proof {
        lemma_integers_keyed();
        lemma_pair_keyed();
    }
    let mut extra: Vec<i64> = Vec::new();
    for c in 0..input.runtime.len()
        invariant
            s == input@,
            extra@ == concat(c as int, |c: int| visible_pid(s.runtime, c)),
    {
        if input.runtime[c].event_id.is_some() {
            extra.push(source_pid(input.runtime[c].global_tid));
        }
        assert(extra@ =~= concat(c as int, |c: int| visible_pid(s.runtime, c)) + visible_pid(s.runtime, c as int));
    }
    let ghost calls = extra@;
    for r in 0..input.nvtx.len()
        invariant
            s == input@,
            extra@ == calls + Seq::new(r as nat, |r: int| s.nvtx[r].pid),
    {
        extra.push(input.nvtx[r].pid);
        assert(extra@ =~= calls + Seq::new((r + 1) as nat, |r: int| s.nvtx[r].pid));
    }
    assert(extra@ =~= extra_pids(s));
    let (by_process, copy_sets) = resolve_device_assignments(input.kernels, input.memcpys, extra.as_slice());
    let mut keys: BTreeSet<(i64, i64)> = BTreeSet::new();
    let pid_list = keys_of(&by_process);
    proof {
        assert(keys@ =~= Set::new(
            |k: (i64, i64)| pid_list@.take(0).contains(k.0) && by_process@[k.0]@.contains(k.1),
        ));
    }
    for p in 0..pid_list.len()
        invariant
            keyed::<i64>(),
            keyed::<(i64, i64)>(),
            forall|pid: i64| #[trigger] pid_list@.contains(pid) <==> by_process@.contains_key(pid),
            keys@ == Set::new(
                |k: (i64, i64)| pid_list@.take(p as int).contains(k.0) && by_process@[k.0]@.contains(k.1),
            ),
    {
        let pid: i64 = pid_list[p];
        assert(pid_list@.contains(pid));
        let ghost seen = pid_list@.take(p as int);
        let ghost next = pid_list@.take(p + 1);
        let ghost keys0 = keys@;
        match by_process.get(&pid) {
            Some(set) => {
                let devices = ordered_vec(set);
                for j in 0..devices.len()
                    invariant
                        keyed::<(i64, i64)>(),
                        keys@ == keys0.union(
                            Set::new(|k: (i64, i64)| k.0 == pid && devices@.take(j as int).contains(k.1)),
                        ),
                {
                    keys.insert((pid, devices[j]));
                    proof {
                        lemma_take_contains(devices@, j as int);
                        assert(keys@ =~= keys0.union(
                            Set::new(|k: (i64, i64)| k.0 == pid && devices@.take(j + 1).contains(k.1)),
                        ));
                    }
                }
                proof {
                    assert(devices@.take(devices@.len() as int) =~= devices@);
                    lemma_take_contains(pid_list@, p as int);
                    assert forall|d: i64| devices@.contains(d) <==> set@.contains(d) by {
                        assert(devices@.contains(d) <==> devices@.to_set().contains(d));
                    }
                    assert(keys@ =~= Set::new(
                        |k: (i64, i64)| next.contains(k.0) && by_process@[k.0]@.contains(k.1),
                    ));
                }
            },
            None => {},
        }
    }
    proof {
        assert(pid_list@.take(pid_list@.len() as int) =~= pid_list@);
        assert forall|k: (i64, i64)| keys@.contains(k) <==> gpu_keys_upto(s, 0).contains(k) by {
            assert(set_views(by_process@).contains_key(k.0) <==> by_process@.contains_key(k.0));
            assert(by_process@.contains_key(k.0) ==> set_views(by_process@)[k.0] == by_process@[k.0]@);
            assert(pid_list@.contains(k.0) <==> by_process@.contains_key(k.0));
        }
        assert(keys@ =~= gpu_keys_upto(s, 0));
    }
    for k in 0..input.kernels.len()
        invariant
            keyed::<(i64, i64)>(),
            s == input@,
            keys@ == gpu_keys_upto(s, k as int),
    {
        let key = (source_pid(input.kernels[k].global_pid), input.kernels[k].device);
        keys.insert(key);
        proof {
            assert(ran_on(s, k as int, key));
            assert forall|x: (i64, i64)| #[trigger] gpu_keys_upto(s, k + 1).contains(x) <==> (gpu_keys_upto(
                s,
                k as int,
            ).contains(x) || x == key) by {}
            assert(keys@ =~= gpu_keys_upto(s, k + 1));
        }
    }
    let processes = number_keys(&keys, GPU_PROCESS_ID_BASE);
    let process_list = ordered_vec(&keys);
    let mut shown_lists: Vec<Vec<i64>> = Vec::new();
    let mut primaries: Vec<i64> = Vec::new();
    for i in 0..input.memcpys.len()
        invariant
            keyed::<i64>(),
            s == input@,
            copy_sets@.len() == s.memcpys.len(),
            forall|i: int| 0 <= i < s.memcpys.len() ==> (#[trigger] copy_sets@[i])@ == shown(s, i),
            shown_lists@.len() == i,
            primaries@.len() == i,
            forall|k: int| 0 <= k < i ==> lists_devices((#[trigger] shown_lists@[k])@, shown(s, k)),
            forall|k: int|
                0 <= k < i ==> #[trigger] primaries@[k] == primary(s, k) && shown(s, k).contains(primaries@[k]),
    {
        proof {
            lemma_copies_placed(s, i as int);
        }
        shown_lists.push(ordered_vec(&copy_sets[i]));
        primaries.push(primary_copy_device(&input.memcpys[i], &copy_sets[i]));
    }
    DevicePlan { by_process, processes, process_list, shown: shown_lists, primary: primaries }
}

proof fn lemma_take_contains<T>(s: Seq<T>, i: int)
    requires
        0 <= i < s.len(),
    ensures
        forall|x: T| #[trigger] s.take(i + 1).contains(x) <==> (s.take(i).contains(x) || x == s[i]),
{
    let a = s.take(i + 1);
    let b = s.take(i);
    assert(a[i] == s[i]);
    assert forall|x: T| #[trigger] a.contains(x) <==> (b.contains(x) || x == s[i]) by {
        if a.contains(x) {
            let k = choose|k: int| 0 <= k < a.len() && a[k] == x;
            if k < i {
                assert(b[k] == x);
            }
        }
        if b.contains(x) {
            let k = choose|k: int| 0 <= k < b.len() && b[k] == x;
            assert(a[k] == x);
        }
    }
}

fn keys_of<V>(m: &BTreeMap<i64, V>) -> (keys: Vec<i64>)
    ensures
        lists(keys@, m@.dom()),
        keys@ == ordered(m@.dom()),
        forall|k: i64| #[trigger] keys@.contains(k) <==> m@.contains_key(k),
{
    proof {
        lemma_integers_keyed();
    }
    let mut set: BTreeSet<i64> = BTreeSet::new();
    for k in it: m.keys()
        invariant
            keyed::<i64>(),
            it.seq() == m.keys().remaining(),
            set@ == it.seq().unref().take(it.index()).to_set(),
    {
        set.insert(*k);
        proof {
            lemma_take_set(it.seq().unref(), it.index());
        }
    }
    proof {
        assert(m.keys().remaining().unref().take(m.keys().remaining().len() as int) =~= m.keys().remaining().unref());
    }
    let keys = ordered_vec(&set);
    proof {
        assert forall|k: i64| #[trigger] keys@.contains(k) <==> m@.contains_key(k) by {
            assert(keys@.contains(k) <==> keys@.to_set().contains(k));
        }
    }
    keys
}

/// Hardware streams and copy tracks.
pub struct StreamPlan {
    pub streams: LanePlan<(i64, i64, i64, i64)>,
    pub copy_tracks: BTreeMap<(i64, i64, i64), i64>,
    pub copy_track_list: Vec<(i64, i64, i64)>,
}

impl StreamPlan {
    pub open spec fn covers(self, s: Scene) -> bool {
        &&& s.kernels.len() + s.memcpys.len() <= usize::MAX
        &&& self.streams.packs(Packing::Disjoint, stream_entries(s), 1)
        &&& numbering(self.copy_tracks@, copy_track_keys(s), 500_000_000)
        &&& self.copy_track_list@ == ordered(copy_track_keys(s))
        &&& lists(self.copy_track_list@, copy_track_keys(s))
    }
}

/// Packs the activities of hardware streams into lanes and numbers the copy tracks.
pub fn plan_streams(input: &EmitInput<'_>, devices: &DevicePlan) -> (plan: StreamPlan)
    requires
        devices.covers(input@),
    ensures
        plan.covers(input@),
{
    let ghost s = input@;
    proof {
        lemma_integers_keyed();
        lemma_quad_keyed();
        lemma_triple_keyed::<i64, i64, i64>();
    }
    let _kernel_count: usize = input.kernels.len();
    let mut entries: Vec<((i64, i64, i64, i64), (i64, i64, usize))> = Vec::new();
    for k in 0..input.kernels.len()
        invariant
            s == input@,
            s.kernels.len() <= usize::MAX,
            entries@ == stream_entries(s).take(k as int),
    {
        let kernel = &input.kernels[k];
        let key = (source_pid(kernel.global_pid), kernel.device, kernel.context, kernel.stream);
        entries.push((key, (kernel.start, kernel.end, k)));
        assert(entries@ =~= stream_entries(s).take(k + 1));
    }
    let mut copies: BTreeSet<(i64, i64, i64)> = BTreeSet::new();
    assert(copies@ =~= copy_track_keys_upto(s, 0));
    for i in 0..input.memcpys.len()
        invariant
            keyed::<(i64, i64, i64)>(),
            s == input@,
            devices.covers(s),
            entries@ == stream_entries(s).take(s.kernels.len() + i),
            copies@ == copy_track_keys_upto(s, i as int),
    {
        let copy = &input.memcpys[i];
        let pid: i64 = source_pid(copy.global_pid);
        let item: usize = entries.len();
        let key = (pid, devices.primary[i], copy.context, copy.stream);
        entries.push((key, (copy.start, copy.end, item)));
        proof {
            assert(key == copy_stream_key(s, i as int));
            assert(item == s.kernels.len() + i);
            assert(entries@ =~= stream_entries(s).take(s.kernels.len() + i + 1));
        }
        let track: i64 = copy_track_rank(copy.copy_kind);
        let ghost copies0 = copies@;
        let shown_on = &devices.shown[i];
        for j in 0..shown_on.len()
            invariant
                keyed::<(i64, i64, i64)>(),
                copies@ == copies0.union(
                    Set::new(
                        |k: (i64, i64, i64)|
                            k.0 == pid && shown_on@.take(j as int).contains(k.1) && k.2 == track,
                    ),
                ),
        {
            copies.insert((pid, shown_on[j], track));
            proof {
                lemma_take_contains(shown_on@, j as int);
                assert(copies@ =~= copies0.union(
                    Set::new(
                        |k: (i64, i64, i64)| k.0 == pid && shown_on@.take(j + 1).contains(k.1) && k.2 == track,
                    ),
                ));
            }
        }
        proof {
            assert(shown_on@.take(shown_on@.len() as int) =~= shown_on@);
            assert forall|d: i64| shown_on@.contains(d) <==> shown(s, i as int).contains(d) by {
                assert(shown_on@.contains(d) <==> shown_on@.to_set().contains(d));
            }
            assert forall|x: (i64, i64, i64)| copies@.contains(x) <==> copy_track_keys_upto(s, i + 1).contains(
                x,
            ) by {
                assert(copies@.contains(x) <==> copies0.contains(x) || copy_on_track(s, i as int, x));
            }
            assert(copies@ =~= copy_track_keys_upto(s, i + 1));
        }
    }
    let _activity_count: usize = entries.len();
    proof {
        assert(entries@ =~= stream_entries(s));
        assert(distinct_items(entries@));
    }
    StreamPlan {
        streams: plan_lanes(Packing::Disjoint, &entries, 1),
        copy_tracks: number_keys(&copies, 500_000_000),
        copy_track_list: ordered_vec(&copies),
    }
}

/// Core timeline lanes, and the devices and lanes of calls.
pub struct LaunchPlan {
    pub core: LanePlan<(i64, i64, i64)>,
    pub call_devices: Vec<Vec<i64>>,
    pub calls: LanePlan<(i64, i64, i64)>,
}

impl LaunchPlan {
    pub open spec fn covers(self, s: Scene) -> bool {
        &&& self.core.packs(Packing::Disjoint, kernel_entries(s), 400_000_000)
        &&& self.call_devices@.len() == s.runtime.len()
        &&& forall|c: int|
            0 <= c < s.runtime.len() ==> lists_devices((#[trigger] self.call_devices@[c])@, call_devices(s, c))
        &&& self.calls.packs(Packing::Disjoint, call_entries(s), 1_100_000_000)
    }
}

/// The device sets collected for calls so far.
spec fn collected(m: Map<usize, BTreeSet<i64>>, s: Scene, n: int, k: int) -> bool {
    &&& forall|c: usize| #[trigger]
        m.contains_key(c) <==> !linked_devices_upto(s, c as int, n, k).is_empty()
    &&& forall|c: usize| #[trigger] m.contains_key(c) ==> m[c]@ == linked_devices_upto(s, c as int, n, k)
}

fn add_call_devices(m: &mut BTreeMap<usize, BTreeSet<i64>>, c: usize, more: &Vec<i64>)
    ensures
        final(m)@.dom() == old(m)@.dom().insert(c),
        forall|x: usize| x != c && #[trigger] old(m)@.contains_key(x) ==> final(m)@[x] == old(m)@[x],
        final(m)@[c]@ == (if old(m)@.contains_key(c) {
            old(m)@[c]@
        } else {
            Set::empty()
        }).union(more@.to_set()),
{
    proof {
        lemma_integers_keyed();
    }
    let mut set: BTreeSet<i64> = match m.remove(&c) {
        Some(set) => set,
        None => BTreeSet::new(),
    };
    let ghost before = set@;
    for i in 0..more.len()
        invariant
            keyed::<i64>(),
            set@ == before.union(more@.take(i as int).to_set()),
    {
        set.insert(more[i]);
        proof {
            lemma_take_set(more@, i as int);
            assert(set@ =~= before.union(more@.take(i + 1).to_set()));
        }
    }
    assert(more@.take(more@.len() as int) =~= more@);
    m.insert(c, set);
    assert(m@.dom() =~= old(m)@.dom().insert(c));
}

proof fn lemma_collected_step(
    before: Map<usize, BTreeSet<i64>>,
    after: Map<usize, BTreeSet<i64>>,
    s: Scene,
    n: int,
    k: int,
    n1: int,
    k1: int,
    launch: Option<usize>,
    more: Set<i64>,
)
    requires
        collected(before, s, n, k),
        !more.is_empty(),
        forall|c: usize, d: i64|
            #![trigger linked_devices_upto(s, c as int, n1, k1).contains(d)]
            linked_devices_upto(s, c as int, n1, k1).contains(d) <==> linked_devices_upto(
                s,
                c as int,
                n,
                k,
            ).contains(d) || (launch == Some(c) && more.contains(d)),
        match launch {
            None => after == before,
            Some(c) => {
                &&& after.dom() == before.dom().insert(c)
                &&& forall|x: usize| x != c && #[trigger] before.contains_key(x) ==> after[x] == before[x]
                &&& after[c]@ == (if before.contains_key(c) {
                    before[c]@
                } else {
                    Set::empty()
                }).union(more)
            },
        },
    ensures
        collected(after, s, n1, k1),
{
    let witness = more.choose();
    assert(more.contains(witness)) by {
        if forall|d: i64| !more.contains(d) {
            assert(more =~= Set::empty());
        }
    }
    assert forall|c: usize| #![trigger after.contains_key(c)] {
        let old_set = linked_devices_upto(s, c as int, n, k);
        let new_set = linked_devices_upto(s, c as int, n1, k1);
        &&& after.contains_key(c) <==> !new_set.is_empty()
        &&& after.contains_key(c) ==> after[c]@ == new_set
    } by {
        let old_set = linked_devices_upto(s, c as int, n, k);
        let new_set = linked_devices_upto(s, c as int, n1, k1);
        assert(before.contains_key(c) <==> !old_set.is_empty());
        if launch == Some(c) {
            assert(new_set.contains(witness));
            assert(new_set =~= old_set.union(more));
            if old_set.is_empty() {
                assert(old_set =~= Set::empty());
            }
            assert(after[c]@ =~= new_set);
        } else {
            assert(new_set =~= old_set);
            assert(after.contains_key(c) <==> before.contains_key(c));
        }
    }
}

fn collect_call_devices(input: &EmitInput<'_>, devices: &DevicePlan) -> (m: BTreeMap<usize, BTreeSet<i64>>)
    requires
        devices.covers(input@),
    ensures
        collected(m@, input@, input@.kernels.len() as int, input@.memcpys.len() as int),
{
    let ghost s = input@;
    let mut m: BTreeMap<usize, BTreeSet<i64>> = BTreeMap::new();
    proof {
        assert forall|c: usize| #[trigger] linked_devices_upto(s, c as int, 0, 0).is_empty() by {
            assert(linked_devices_upto(s, c as int, 0, 0) =~= Set::empty());
        }
    }
    for k in 0..input.kernels.len()
        invariant
            s == input@,
            collected(m@, s, k as int, 0),
    {
        let ghost before = m@;
        let launch = input.kernels[k].launch_call;
        let device: i64 = input.kernels[k].device;
        let one: Vec<i64> = vec![device];
        match launch {
            Some(c) => {
                add_call_devices(&mut m, c, &one);
            },
            None => {},
        }
        proof {
            assert(one@[0] == device);
            assert(one@.to_set().contains(device));
            assert forall|c: usize, d: i64|
                #![trigger linked_devices_upto(s, c as int, k + 1, 0).contains(d)]
                linked_devices_upto(s, c as int, k + 1, 0).contains(d) <==> linked_devices_upto(
                    s,
                    c as int,
                    k as int,
                    0,
                ).contains(d) || (launch == Some(c) && one@.to_set().contains(d)) by {
                if linked_devices_upto(s, c as int, k + 1, 0).contains(d) {
                    let i = choose|i: int| 0 <= i < k + 1 && #[trigger] kernel_launched_on(s, c as int, d, i);
                    assert(kernel_launched_on(s, c as int, d, i));
                }
                if linked_devices_upto(s, c as int, k as int, 0).contains(d) {
                    let i = choose|i: int| 0 <= i < k && #[trigger] kernel_launched_on(s, c as int, d, i);
                    assert(kernel_launched_on(s, c as int, d, i));
                }
                if launch == Some(c) && one@.to_set().contains(d) {
                    assert(kernel_launched_on(s, c as int, d, k as int));
                }
            }
            lemma_collected_step(before, m@, s, k as int, 0, k + 1, 0, launch, one@.to_set());
        }
    }
    let ghost n = s.kernels.len() as int;
    for i in 0..input.memcpys.len()
        invariant
            s == input@,
            n == s.kernels.len(),
            devices.covers(s),
            collected(m@, s, n, i as int),
    {
        let ghost before = m@;
        let launch = input.memcpys[i].launch_call;
        let more = &devices.shown[i];
        match launch {
            Some(c) => {
                add_call_devices(&mut m, c, more);
            },
            None => {},
        }
        proof {
            lemma_copies_placed(s, i as int);
            assert(more@.to_set() == shown(s, i as int));
            assert forall|c: usize, d: i64|
                #![trigger linked_devices_upto(s, c as int, n, i + 1).contains(d)]
                linked_devices_upto(s, c as int, n, i + 1).contains(d) <==> linked_devices_upto(
                    s,
                    c as int,
                    n,
                    i as int,
                ).contains(d) || (launch == Some(c) && more@.to_set().contains(d)) by {
                let now = linked_devices_upto(s, c as int, n, i + 1);
                let was = linked_devices_upto(s, c as int, n, i as int);
                if now.contains(d) && !(exists|k: int| 0 <= k < n && #[trigger] kernel_launched_on(
                    s,
                    c as int,
                    d,
                    k,
                )) {
                    let x = choose|x: int| 0 <= x < i + 1 && #[trigger] copy_launched_on(s, c as int, d, x);
                    assert(copy_launched_on(s, c as int, d, x));
                }
                if was.contains(d) && !(exists|k: int| 0 <= k < n && #[trigger] kernel_launched_on(
                    s,
                    c as int,
                    d,
                    k,
                )) {
                    let x = choose|x: int| 0 <= x < i && #[trigger] copy_launched_on(s, c as int, d, x);
                    assert(copy_launched_on(s, c as int, d, x));
                }
                if launch == Some(c) && more@.to_set().contains(d) {
                    assert(copy_launched_on(s, c as int, d, i as int));
                }
            }
            lemma_collected_step(before, m@, s, n, i as int, n, i + 1, launch, more@.to_set());
        }
    }
    m
}

pub proof fn lemma_call_entry(s: Scene, c: int, device: i64)
    requires
        0 <= c < s.runtime.len(),
        lists(ordered(call_devices(s, c)), call_devices(s, c)),
        call_devices(s, c).contains(device),
    ensures
        has_item(call_entries(s), call_group(s, c, device), c as usize),
{
    let devices = ordered(call_devices(s, c));
    assert(devices.to_set().contains(device));
    let j = choose|j: int| 0 <= j < devices.len() && devices[j] == device;
    let i = lemma_concat_has(s.runtime.len() as int, |c: int| call_block(s, c), c, j);
    assert(call_entries(s)[i].0 == call_group(s, c, device));
}

pub proof fn lemma_projected_entry(s: Scene, r: int, device: i64)
    requires
        0 <= r < s.nvtx.len(),
        lists(ordered(bound_devices(s, r)), bound_devices(s, r)),
        bound_devices(s, r).contains(device),
    ensures
        has_item(projected_entries(s), range_group(s, r, device), r as usize),
{
    let devices = ordered(bound_devices(s, r));
    assert(devices.to_set().contains(device));
    let j = choose|j: int| 0 <= j < devices.len() && devices[j] == device;
    let i = lemma_concat_has(s.nvtx.len() as int, |r: int| projected_block(s, r), r, j);
    assert(projected_entries(s)[i].0 == range_group(s, r, device));
}

/// Packs kernels into core timeline lanes and calls into API lanes.
pub fn plan_launches(input: &EmitInput<'_>, devices: &DevicePlan) -> (plan: LaunchPlan)
    requires
        devices.covers(input@),
    ensures
        plan.covers(input@),
{
    let ghost s = input@;
    proof {
        lemma_integers_keyed();
        lemma_triple_keyed::<i64, i64, i64>();
    }
    let mut entries: Vec<((i64, i64, i64), (i64, i64, usize))> = Vec::new();
    for k in 0..input.kernels.len()
        invariant
            s == input@,
            entries@.len() == k,
            forall|i: int| 0 <= i < k ==> #[trigger] entries@[i] == kernel_entries(s)[i],
    {
        let kernel = &input.kernels[k];
        entries.push(((source_pid(kernel.global_pid), kernel.device, 0), (kernel.start, kernel.end, k)));
    }
    let _kernel_count: usize = input.kernels.len();
    let _call_count: usize = input.runtime.len();
    assert(entries@ =~= kernel_entries(s));
    assert(distinct_items(entries@));
    let core = plan_lanes(Packing::Disjoint, &entries, 400_000_000);

    let linked = collect_call_devices(input, devices);
    let mut lists_of: Vec<Vec<i64>> = Vec::new();
    let mut call_list: Vec<((i64, i64, i64), (i64, i64, usize))> = Vec::new();
    for c in 0..input.runtime.len()
        invariant
            keyed::<i64>(),
            keyed::<usize>(),
            s == input@,
            s.runtime.len() <= usize::MAX,
            devices.covers(s),
            collected(linked@, s, s.kernels.len() as int, s.memcpys.len() as int),
            lists_of@.len() == c,
            forall|i: int| 0 <= i < c ==> lists_devices((#[trigger] lists_of@[i])@, call_devices(s, i)),
            call_list@ == concat(c as int, |c: int| call_block(s, c)),
    {
        let call = &input.runtime[c];
        let pid: i64 = source_pid(call.global_tid);
        let tid: i64 = source_tid(call.global_tid);
        assert(linked@.contains_key(c) <==> !linked_devices(s, c as int).is_empty());
        let own: Vec<i64> = match linked.get(&c) {
            Some(set) => ordered_vec(set),
            None => {
                if call.event_id.is_some() {
                    proof {
                        lemma_extra_pids(s);
                        assert(visible(s.runtime[c as int]));
                        assert(set_views(devices.by_process@).contains_key(pid));
                    }
                    match devices.by_process.get(&pid) {
                        Some(set) => {
                            assert(set_views(devices.by_process@)[pid] == set@);
                            ordered_vec(set)
                        },
                        None => Vec::new(),
                    }
                } else {
                    let none: Vec<i64> = Vec::new();
                    proof {
                        assert(none@.to_set() =~= Set::empty());
                        lemma_lists_is_ordered(none@, Set::empty());
                    }
                    none
                }
            },
        };
        assert(lists_devices(own@, call_devices(s, c as int)));
        let ghost before = call_list@;
        for j in 0..own.len()
            invariant
                s == input@,
                0 <= c < s.runtime.len(),
                own@ == ordered(call_devices(s, c as int)),
                pid == pid_of(s.runtime[c as int].global_tid),
                tid == tid_of(s.runtime[c as int].global_tid),
                call == s.runtime[c as int],
                call_list@ == before + call_block(s, c as int).take(j as int),
        {
            call_list.push(((pid, own[j], tid), (call.start, call.end, c)));
            assert(call_list@ =~= before + call_block(s, c as int).take(j + 1));
        }
        assert(call_block(s, c as int).take(own@.len() as int) =~= call_block(s, c as int));
        lists_of.push(own);
    }
    proof {
        let f = |c: int| call_block(s, c);
        let all = call_list@;
        assert(all == call_entries(s));
        assert forall|i: int, j: int|
            0 <= i < j < all.len() && (#[trigger] all[i]).0 == (#[trigger] all[j]).0 implies all[i].1.2
            != all[j].1.2 by {
            let a = lemma_concat_entry(s.runtime.len() as int, f, i);
            let b = lemma_concat_entry(s.runtime.len() as int, f, j);
            if all[i].1.2 == all[j].1.2 {
                assert(a.0 == b.0);
                assert(lists_devices(lists_of@[a.0]@, call_devices(s, a.0)));
                let devices = ordered(call_devices(s, a.0));
                lemma_lists_is_ordered(devices, call_devices(s, a.0));
                assert(devices[a.1] == devices[b.1]);
                assert(a.1 == b.1);
            }
        }
    }
    let calls = plan_lanes(Packing::Disjoint, &call_list, 1_100_000_000);
    LaunchPlan { core, call_devices: lists_of, calls }
}

/// The tracks of ranges and the order of source threads.
pub struct RangePlan {
    pub bound_devices: Vec<Vec<i64>>,
    pub projected: LanePlan<(i64, i64, i64)>,
    pub range_devices: Vec<Vec<i64>>,
    pub tracks: BTreeMap<(i64, i64, i64), i64>,
    pub track_list: Vec<(i64, i64, i64)>,
}

impl RangePlan {
    pub open spec fn covers(self, s: Scene) -> bool {
        &&& self.bound_devices@.len() == s.nvtx.len()
        &&& forall|r: int|
            0 <= r < s.nvtx.len() ==> lists_devices((#[trigger] self.bound_devices@[r])@, bound_devices(s, r))
        &&& self.projected.packs(Packing::Nested, projected_entries(s), 1_000_000_000)
        &&& self.range_devices@.len() == s.nvtx.len()
        &&& forall|r: int|
            0 <= r < s.nvtx.len() ==> lists_devices((#[trigger] self.range_devices@[r])@, range_devices(s, r))
        &&& numbering(self.tracks@, nvtx_keys(s), 1_200_000_000)
        &&& self.track_list@ == ordered(nvtx_keys(s))
        &&& lists(self.track_list@, nvtx_keys(s))
    }
}

/// Packs projected ranges into lanes and numbers the tracks of ranges.
pub fn plan_ranges(input: &EmitInput<'_>, devices: &DevicePlan) -> (plan: RangePlan)
    requires
        devices.covers(input@),
    ensures
        plan.covers(input@),
{
    let ghost s = input@;
    proof {
        lemma_integers_keyed();
        lemma_triple_keyed::<i64, i64, i64>();
    }
    let _range_count: usize = input.nvtx.len();
    let mut bound_lists: Vec<Vec<i64>> = Vec::new();
    let mut range_lists: Vec<Vec<i64>> = Vec::new();
    let mut entries: Vec<((i64, i64, i64), (i64, i64, usize))> = Vec::new();
    let mut keys: BTreeSet<(i64, i64, i64)> = BTreeSet::new();
    assert(keys@ =~= nvtx_keys_upto(s, 0));
    for r in 0..input.nvtx.len()
        invariant
            keyed::<i64>(),
            keyed::<(i64, i64, i64)>(),
            s == input@,
            s.nvtx.len() <= usize::MAX,
            devices.covers(s),
            bound_lists@.len() == r,
            range_lists@.len() == r,
            forall|i: int| 0 <= i < r ==> lists_devices((#[trigger] bound_lists@[i])@, bound_devices(s, i)),
            forall|i: int| 0 <= i < r ==> lists_devices((#[trigger] range_lists@[i])@, range_devices(s, i)),
            entries@ == concat(r as int, |r: int| projected_block(s, r)),
            keys@ == nvtx_keys_upto(s, r as int),
    {
        let range = &input.nvtx[r];
        let bound = keys_of(&range.kernel_bounds);
        let ghost before = entries@;
        for j in 0..bound.len()
            invariant
                keyed::<i64>(),
                s == input@,
                0 <= r < s.nvtx.len(),
                range == s.nvtx[r as int],
                bound@ == ordered(bound_devices(s, r as int)),
                forall|k: i64| #[trigger] bound@.contains(k) <==> range.kernel_bounds@.contains_key(k),
                entries@ == before + projected_block(s, r as int).take(j as int),
        {
            let device: i64 = bound[j];
            assert(bound@.contains(device));
            match range.kernel_bounds.get(&device) {
                Some(b) => {
                    entries.push(((range.pid, device, range.tid), (b.0, b.1, r)));
                },
                None => {},
            }
            assert(entries@ =~= before + projected_block(s, r as int).take(j + 1));
        }
        assert(projected_block(s, r as int).take(bound@.len() as int) =~= projected_block(s, r as int));
        let mut shown_on: Vec<i64> = Vec::new();
        if bound.len() == 0 {
            proof {
                assert(bound_devices(s, r as int) =~= Set::empty()) by {
                    assert(bound@.to_set() =~= Set::empty());
                }
                lemma_extra_pids(s);
                assert(set_views(devices.by_process@).contains_key(s.nvtx[r as int].pid));
            }
            match devices.by_process.get(&range.pid) {
                Some(set) => {
                    assert(set_views(devices.by_process@)[range.pid] == set@);
                    shown_on = ordered_vec(set);
                },
                None => {},
            }
        } else {
            proof {
                assert(bound@.contains(bound@[0]));
                lemma_not_empty(bound_devices(s, r as int), bound@[0]);
            }
            for j in 0..bound.len()
                invariant
                    shown_on@ == bound@.take(j as int),
            {
                shown_on.push(bound[j]);
                assert(bound@.take(j as int).push(bound@[j as int]) =~= bound@.take(j + 1));
            }
            assert(bound@.take(bound@.len() as int) =~= bound@);
        }
        assert(lists_devices(shown_on@, range_devices(s, r as int)));
        let ghost keys0 = keys@;
        for j in 0..shown_on.len()
            invariant
                keyed::<(i64, i64, i64)>(),
                keys@ == keys0.union(
                    Set::new(
                        |k: (i64, i64, i64)|
                            k.0 == range.pid && shown_on@.take(j as int).contains(k.1) && k.2 == range.tid,
                    ),
                ),
        {
            keys.insert((range.pid, shown_on[j], range.tid));
            proof {
                lemma_take_contains(shown_on@, j as int);
                assert(keys@ =~= keys0.union(
                    Set::new(
                        |k: (i64, i64, i64)|
                            k.0 == range.pid && shown_on@.take(j + 1).contains(k.1) && k.2 == range.tid,
                    ),
                ));
            }
        }
        proof {
            assert(shown_on@.take(shown_on@.len() as int) =~= shown_on@);
            assert forall|d: i64| shown_on@.contains(d) <==> range_devices(s, r as int).contains(d) by {
                assert(shown_on@.contains(d) <==> shown_on@.to_set().contains(d));
            }
            assert forall|x: (i64, i64, i64)| keys@.contains(x) <==> nvtx_keys_upto(s, r + 1).contains(x) by {
                assert(keys@.contains(x) <==> keys0.contains(x) || range_on_track(s, r as int, x));
            }
            assert(keys@ =~= nvtx_keys_upto(s, r + 1));
        }
        bound_lists.push(bound);
        range_lists.push(shown_on);
    }
    proof {
        let f = |r: int| projected_block(s, r);
        let all = entries@;
        assert(all == projected_entries(s));
        assert forall|i: int, j: int|
            0 <= i < j < all.len() && (#[trigger] all[i]).0 == (#[trigger] all[j]).0 implies all[i].1.2
            != all[j].1.2 by {
            let a = lemma_concat_entry(s.nvtx.len() as int, f, i);
            let b = lemma_concat_entry(s.nvtx.len() as int, f, j);
            if all[i].1.2 == all[j].1.2 {
                assert(a.0 == b.0);
                assert(lists_devices(bound_lists@[a.0]@, bound_devices(s, a.0)));
                let devices = ordered(bound_devices(s, a.0));
                lemma_lists_is_ordered(devices, bound_devices(s, a.0));
                assert(devices[a.1] == devices[b.1]);
                assert(a.1 == b.1);
            }
        }
    }
    let projected = plan_lanes(Packing::Nested, &entries, 1_000_000_000);
    RangePlan {
        bound_devices: bound_lists,
        projected,
        range_devices: range_lists,
        tracks: number_keys(&keys, 1_200_000_000),
        track_list: ordered_vec(&keys),
    }
}

/// `m` gives every source thread its place among the threads of its device.
pub open spec fn ranks_threads(m: Map<(i64, i64, i64), usize>, s: Scene) -> bool {
    &&& m.dom() == source_threads(s)
    &&& forall|k: (i64, i64, i64)| #[trigger] m.contains_key(k) ==> m[k] == thread_rank(s, k)
}

/// Ranks the source threads of every device.
pub(crate) fn plan_threads(launch: &LaunchPlan, ranges: &RangePlan, Ghost(s): Ghost<Scene>) -> (ranks: BTreeMap<
    (i64, i64, i64),
    usize,
>)
    requires
        launch.covers(s),
        ranges.covers(s),
    ensures
        ranks_threads(ranks@, s),
{
    proof {
        lemma_integers_keyed();
        lemma_pair_keyed();
        lemma_triple_keyed::<i64, i64, i64>();
    }
    let mut set: BTreeSet<(i64, i64, i64)> = BTreeSet::new();
    add_keys(&mut set, &ranges.projected.groups);
    add_keys(&mut set, &launch.calls.groups);
    add_keys(&mut set, &ranges.track_list);
    assert(set@ =~= source_threads(s));
    let threads = ordered_vec(&set);
    let ghost devices = thread_devices(threads@);
    let mut counts: BTreeMap<(i64, i64), usize> = BTreeMap::new();
    let mut ranks: BTreeMap<(i64, i64, i64), usize> = BTreeMap::new();
    for i in 0..threads.len()
        invariant
            keyed::<(i64, i64)>(),
            keyed::<(i64, i64, i64)>(),
            threads@ == ordered(source_threads(s)),
            threads@.no_duplicates(),
            devices == thread_devices(threads@),
            forall|d: (i64, i64)| #[trigger]
                counts@.contains_key(d) ==> counts@[d] == occurrences(devices.take(i as int), d),
            forall|d: (i64, i64)|
                !#[trigger] counts@.contains_key(d) ==> occurrences(devices.take(i as int), d) == 0,
            ranks@.dom() == threads@.take(i as int).to_set(),
            forall|k: (i64, i64, i64)| #[trigger] ranks@.contains_key(k) ==> ranks@[k] == thread_rank(s, k),
    {
        let key = threads[i];
        let device = (key.0, key.1);
        let count: usize = match counts.get(&device) {
            Some(n) => *n,
            None => 0,
        };
        proof {
            lemma_occurrences_bound(devices.take(i as int), device);
            assert(devices.take(i + 1).drop_last() =~= devices.take(i as int));
            lemma_index_of(threads@, i as int);
            lemma_take_set(threads@, i as int);
        }
        counts.insert(device, count + 1);
        ranks.insert(key, count);
        assert(ranks@.dom() =~= threads@.take(i + 1).to_set());
    }
    assert(threads@.take(threads@.len() as int) =~= threads@);
    ranks
}

fn add_keys(set: &mut BTreeSet<(i64, i64, i64)>, more: &Vec<(i64, i64, i64)>)
    ensures
        final(set)@ == old(set)@.union(more@.to_set()),
{
    proof {
        lemma_integers_keyed();
        lemma_triple_keyed::<i64, i64, i64>();
    }
    let ghost before = set@;
    for i in 0..more.len()
        invariant
            keyed::<(i64, i64, i64)>(),
            set@ == before.union(more@.take(i as int).to_set()),
    {
        set.insert(more[i]);
        proof {
            lemma_take_set(more@, i as int);
            assert(set@ =~= before.union(more@.take(i + 1).to_set()));
        }
    }
    assert(more@.take(more@.len() as int) =~= more@);
}

/// Where everything of a timeline is placed.
pub struct Plan {
    pub devices: DevicePlan,
    pub streams: StreamPlan,
    pub launch: LaunchPlan,
    pub ranges: RangePlan,
    pub ranks: BTreeMap<(i64, i64, i64), usize>,
    pub flow_space: u64,
}

impl Plan {
    pub open spec fn covers(self, s: Scene) -> bool {
        &&& self.devices.covers(s)
        &&& self.streams.covers(s)
        &&& self.launch.covers(s)
        &&& self.ranges.covers(s)
        &&& ranks_threads(self.ranks@, s)
        &&& self.flow_space == namespace(s.report)
        &&& self.flow_space <= NAMESPACES
    }
}

/// Places everything of a timeline.
pub fn plan_timeline(input: &EmitInput<'_>) -> (plan: Plan)
    ensures
        plan.covers(input@),
{
    let devices = plan_devices(input);
    let streams = plan_streams(input, &devices);
    let launch = plan_launches(input, &devices);
    let ranges = plan_ranges(input, &devices);
    let ranks = plan_threads(&launch, &ranges, Ghost(input@));
    let flow_space: u64 = namespace_of(input.report);
    Plan { devices, streams, launch, ranges, ranks, flow_space }
}

/// Whether everything that the timeline refers to has a place on it.
pub fn is_placeable(input: &EmitInput<'_>, plan: &Plan) -> (r: bool)
    requires
        plan.covers(input@),
    ensures
        r == placeable(input@),
{
    let ghost s = input@;
    proof {
        lemma_pair_keyed();
    }
    for k in 0..input.kernels.len()
        invariant
            s == input@,
            forall|i: int| 0 <= i < k ==> #[trigger] kernel_placed(s, i),
    {
        if !in_range(input.kernels[k].launch_call, input.runtime.len()) {
            assert(!kernel_placed(s, k as int));
            return false;
        }
    }
    for i in 0..input.memcpys.len()
        invariant
            s == input@,
            forall|j: int| 0 <= j < i ==> #[trigger] copy_placed(s, j),
    {
        if !in_range(input.memcpys[i].launch_call, input.runtime.len()) {
            assert(!copy_placed(s, i as int));
            return false;
        }
    }
    for c in 0..input.runtime.len()
        invariant
            keyed::<(i64, i64)>(),
            s == input@,
            plan.covers(s),
            forall|j: int| 0 <= j < c ==> #[trigger] call_placed(s, j),
    {
        let pid: i64 = source_pid(input.runtime[c].global_tid);
        let listed = &plan.launch.call_devices[c];
        if !all_known(&plan.devices.processes, pid, listed) {
            proof {
                let j = choose|j: int|
                    0 <= j < listed@.len() && !plan.devices.processes@.contains_key((pid, #[trigger] listed@[j]));
                assert(listed@.to_set().contains(listed@[j]));
                assert(!call_placed(s, c as int));
            }
            return false;
        }
        proof {
            assert forall|d: i64| #[trigger] call_devices(s, c as int).contains(d) implies gpu_keys(s).contains(
                (pid, d),
            ) by {
                assert(listed@.to_set().contains(d));
                let j = choose|j: int| 0 <= j < listed@.len() && listed@[j] == d;
                assert(plan.devices.processes@.contains_key((pid, listed@[j])));
            }
        }
    }
    for r in 0..input.nvtx.len()
        invariant
            keyed::<(i64, i64)>(),
            s == input@,
            plan.covers(s),
            forall|j: int| 0 <= j < r ==> #[trigger] range_placed(s, j),
    {
        let pid: i64 = input.nvtx[r].pid;
        let listed = &plan.ranges.bound_devices[r];
        if !all_known(&plan.devices.processes, pid, listed) {
            proof {
                let j = choose|j: int|
                    0 <= j < listed@.len() && !plan.devices.processes@.contains_key((pid, #[trigger] listed@[j]));
                assert(listed@.to_set().contains(listed@[j]));
                assert(!range_placed(s, r as int));
            }
            return false;
        }
        proof {
            assert forall|d: i64| #[trigger] bound_devices(s, r as int).contains(d) implies gpu_keys(s).contains(
                (pid, d),
            ) by {
                assert(listed@.to_set().contains(d));
                let j = choose|j: int| 0 <= j < listed@.len() && listed@[j] == d;
                assert(plan.devices.processes@.contains_key((pid, listed@[j])));
            }
        }
    }
    true
}

fn in_range(launch: Option<usize>, calls: usize) -> (r: bool)
    ensures
        r == (launch matches Some(c) ==> c < calls),
{
    match launch {
        Some(c) => c < calls,
        None => true,
    }
}

fn all_known(processes: &BTreeMap<(i64, i64), i64>, pid: i64, devices: &Vec<i64>) -> (r: bool)
    ensures
        r == (forall|j: int|
            0 <= j < devices@.len() ==> processes@.contains_key((pid, #[trigger] devices@[j]))),
{
    proof {
        lemma_pair_keyed();
    }
    for j in 0..devices.len()
        invariant
            keyed::<(i64, i64)>(),
            forall|i: int| 0 <= i < j ==> processes@.contains_key((pid, #[trigger] devices@[i])),
    {
        if !processes.contains_key(&(pid, devices[j])) {
            return false;
        }
    }
    true
}

/// The groups of lanes under a placeable timeline belong to GPU processes.
pub proof fn lemma_groups_placed(s: Scene)
    requires
        placeable(s),
        forall|c: int| 0 <= c < s.runtime.len() ==> lists(#[trigger] ordered(call_devices(s, c)), call_devices(s, c)),
        forall|r: int| 0 <= r < s.nvtx.len() ==> lists(#[trigger] ordered(bound_devices(s, r)), bound_devices(s, r)),
    ensures
        forall|k: (i64, i64, i64)| #[trigger]
            entry_keys(kernel_entries(s)).contains(k) ==> gpu_keys(s).contains((k.0, k.1)),
        forall|k: (i64, i64, i64)| #[trigger]
            entry_keys(call_entries(s)).contains(k) ==> gpu_keys(s).contains((k.0, k.1)),
        forall|k: (i64, i64, i64)| #[trigger]
            entry_keys(projected_entries(s)).contains(k) ==> gpu_keys(s).contains((k.0, k.1)),
        forall|k: (i64, i64, i64)| #[trigger] nvtx_keys(s).contains(k) ==> gpu_keys(s).contains((k.0, k.1)),
        forall|r: int, d: i64|
            0 <= r < s.nvtx.len() && #[trigger] range_devices(s, r).contains(d) ==> gpu_keys(s).contains(
                (s.nvtx[r].pid, d),
            ),
{
    assert forall|k: (i64, i64, i64)| #[trigger] entry_keys(kernel_entries(s)).contains(k) implies gpu_keys(
        s,
    ).contains((k.0, k.1)) by {
        let e = kernel_entries(s);
        let i = choose|i: int| 0 <= i < e.len() && (#[trigger] e[i]).0 == k;
        lemma_kernel_device_placed(s, i);
    }
    assert forall|k: (i64, i64, i64)| #[trigger] entry_keys(call_entries(s)).contains(k) implies gpu_keys(
        s,
    ).contains((k.0, k.1)) by {
        let e = call_entries(s);
        let i = choose|i: int| 0 <= i < e.len() && (#[trigger] e[i]).0 == k;
        let place = lemma_concat_entry(s.runtime.len() as int, |c: int| call_block(s, c), i);
        let devices = ordered(call_devices(s, place.0));
        assert(devices.to_set().contains(devices[place.1]));
        assert(call_placed(s, place.0));
    }
    assert forall|k: (i64, i64, i64)| #[trigger] entry_keys(projected_entries(s)).contains(k) implies gpu_keys(
        s,
    ).contains((k.0, k.1)) by {
        let e = projected_entries(s);
        let i = choose|i: int| 0 <= i < e.len() && (#[trigger] e[i]).0 == k;
        let place = lemma_concat_entry(s.nvtx.len() as int, |r: int| projected_block(s, r), i);
        let devices = ordered(bound_devices(s, place.0));
        assert(devices.to_set().contains(devices[place.1]));
        assert(range_placed(s, place.0));
    }
    assert forall|r: int, d: i64|
        0 <= r < s.nvtx.len() && #[trigger] range_devices(s, r).contains(d) implies gpu_keys(s).contains(
        (s.nvtx[r].pid, d),
    ) by {
        lemma_extra_pids(s);
        assert(range_placed(s, r));
        assert(scene_devices(s).contains_key(s.nvtx[r].pid));
    }
    assert forall|k: (i64, i64, i64)| #[trigger] nvtx_keys(s).contains(k) implies gpu_keys(s).contains(
        (k.0, k.1),
    ) by {
        let r = choose|r: int| 0 <= r < s.nvtx.len() && #[trigger] range_on_track(s, r, k);
        assert(range_devices(s, r).contains(k.1));
    }
}

} // verus!
