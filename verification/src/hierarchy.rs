//! Every device has its own process, and every event belongs to one of them.
use crate::devices::{active_devices, copy_names, copy_track, kernel_names, known_devices, own_devices};
use crate::emit::timeline_events;
use crate::event::EventView;
use crate::laws::{lemma_devices_listed, lemma_devices_mentioned, mentioned};
use crate::link::{kernel_stream, kernel_streams, stream_position};
use crate::model::{pid_of, Kernel};
use crate::naming::{
    call_lanes, copy_track_naming, copy_track_section, core_lanes, core_naming, core_section, kind_order, lane_room,
    lane_section, lemma_tracks_placed, lemma_widest, metadata_events, nvtx_lanes, process_naming, process_section,
    projected_lanes, stream_lanes, stream_naming, stream_section, thread_naming, thread_sort, ThreadTrack,
};
use crate::nesting::lemma_mark_track;
use crate::order::{
    lemma_integers_keyed, lemma_ordered_lists, lemma_pair_keyed, lemma_quad_keyed, lemma_triple_keyed, lists, ordered,
};
use crate::ranges::range_events;
use crate::scene::{
    call_devices, call_entries, call_placed, copy_on_track, copy_track_keys, extra_pids, gpu_keys, gpu_process,
    kernel_entries, lemma_copies_placed, lemma_groups_placed, lemma_kernel_device_placed, nvtx_keys, placeable,
    primary, projected_entries, ran_on, range_devices, range_on_track, range_placed, scene_devices, shown,
    source_threads, stream_entries, thread_devices, thread_rank, Scene,
};
use crate::seqs::{concat, lemma_concat_all, lemma_concat_entry, lemma_concat_has, lemma_index_of, occurrences};
use crate::slices::{
    call_events, copy_arrow, copy_arrows, copy_events, copy_slices, kernel_events, pcie_arrow, pcie_arrows,
    usage_slice,
};
use crate::tracks::{entry_keys, lemma_group_listed, lemma_lane_groups, Lane, Packing};
use vstd::prelude::*;

verus! {

/// A process without activity of its own is given every device that the trace knows.
pub proof fn lemma_processes_without_activity_inherit(s: Scene, pid: i64)
    requires
        extra_pids(s).contains(pid),
        active_devices(s.kernels, s.memcpys, pid).is_empty(),
        !known_devices(s.kernels, s.memcpys).is_empty(),
    ensures
        scene_devices(s).contains_key(pid),
        scene_devices(s)[pid] == known_devices(s.kernels, s.memcpys),
{
}

/// The processes that records mention.
spec fn mentioned_pids(s: Scene) -> Seq<i64> {
    Seq::new(s.kernels.len(), |k: int| pid_of(s.kernels[k].global_pid)) + Seq::new(
        s.memcpys.len(),
        |i: int| pid_of(s.memcpys[i].global_pid),
    ) + extra_pids(s)
}

proof fn lemma_pids_mentioned(s: Scene, pid: i64)
    requires
        scene_devices(s).contains_key(pid),
    ensures
        mentioned_pids(s).contains(pid),
{
    let n = s.kernels.len() as int;
    let m = s.memcpys.len() as int;
    if extra_pids(s).contains(pid) {
        let i = choose|i: int| 0 <= i < extra_pids(s).len() && extra_pids(s)[i] == pid;
        assert(mentioned_pids(s)[n + m + i] == pid);
    } else {
        let d = choose|d: i64| #[trigger] active_devices(s.kernels, s.memcpys, pid).contains(d);
        assert(active_devices(s.kernels, s.memcpys, pid).contains(d));
        if own_devices(s.kernels, s.memcpys, pid).contains(d) {
            if exists|i: int| 0 <= i < n && kernel_names(#[trigger] s.kernels[i], pid, d) {
                let i = choose|i: int| 0 <= i < n && kernel_names(#[trigger] s.kernels[i], pid, d);
                assert(mentioned_pids(s)[i] == pid);
            } else {
                let i = choose|i: int| 0 <= i < m && copy_names(#[trigger] s.memcpys[i], pid, d);
                assert(mentioned_pids(s)[n + i] == pid);
            }
        } else {
            let i = choose|i: int| 0 <= i < m && pid_of((#[trigger] s.memcpys[i]).global_pid) == pid;
            assert(mentioned_pids(s)[n + i] == pid);
        }
    }
}

/// The GPU processes can be listed.
pub proof fn lemma_gpu_processes_listed(s: Scene)
    ensures
        lists(ordered(gpu_keys(s)), gpu_keys(s)),
        ordered(gpu_keys(s)).no_duplicates(),
{
    let pids = mentioned_pids(s);
    let devices = mentioned(s);
    let f = |i: int| Seq::new(devices.len(), |j: int| (pids[i], devices[j]));
    let pairs = concat(pids.len() as int, f);
    vstd::seq_lib::seq_to_set_is_finite(pairs);
    lemma_devices_mentioned(s);
    assert forall|k: (i64, i64)| #[trigger] gpu_keys(s).contains(k) implies pairs.to_set().contains(k) by {
        if scene_devices(s).contains_key(k.0) && scene_devices(s)[k.0].contains(k.1) {
            lemma_pids_mentioned(s, k.0);
            assert(devices.contains(k.1));
        } else {
            let x = choose|x: int| 0 <= x < s.kernels.len() && #[trigger] ran_on(s, x, k);
            assert(pids[x] == k.0 && devices[x] == k.1);
        }
        let i = choose|i: int| 0 <= i < pids.len() && pids[i] == k.0;
        let j = choose|j: int| 0 <= j < devices.len() && devices[j] == k.1;
        assert(f(i)[j] == k);
        let x = lemma_concat_has(pids.len() as int, f, i, j);
        assert(pairs[x] == k);
    }
    assert(gpu_keys(s).subset_of(pairs.to_set()));
    vstd::set_lib::lemma_set_subset_finite(pairs.to_set(), gpu_keys(s));
    lemma_pair_keyed();
    lemma_ordered_lists(gpu_keys(s));
}

/// Device numbers are local to their process: the same number in two processes, or two
/// numbers in one, are two GPU processes.
pub proof fn lemma_gpu_processes_are_distinct(s: Scene, a: (i64, i64), b: (i64, i64))
    requires
        gpu_keys(s).contains(a),
        gpu_keys(s).contains(b),
        a != b,
        2_000_000_000 + ordered(gpu_keys(s)).len() <= i64::MAX,
    ensures
        gpu_process(s, a.0, a.1) != gpu_process(s, b.0, b.1),
{
    lemma_gpu_processes_listed(s);
    let keys = ordered(gpu_keys(s));
    assert(keys.to_set().contains(a) && keys.to_set().contains(b));
    let i = choose|i: int| 0 <= i < keys.len() && keys[i] == a;
    let j = choose|j: int| 0 <= j < keys.len() && keys[j] == b;
    lemma_index_of(keys, i);
    lemma_index_of(keys, j);
    assert((a.0, a.1) == a && (b.0, b.1) == b);
}

/// The number belongs to a device of a process.
pub open spec fn is_gpu_process(s: Scene, pid: i64) -> bool {
    exists|k: (i64, i64)| #[trigger] gpu_keys(s).contains(k) && gpu_process(s, k.0, k.1) == pid
}

spec fn under_gpu(s: Scene, e: EventView) -> bool {
    is_gpu_process(s, e.pid)
}

proof fn lemma_lanes_under_gpu(s: Scene, kind: ThreadTrack, lanes: Seq<Lane<(i64, i64, i64)>>)
    requires
        forall|i: int| 0 <= i < lanes.len() ==> gpu_keys(s).contains(((#[trigger] lanes[i]).key.0, lanes[i].key.1)),
    ensures
        forall|i: int|
            0 <= i < lane_section(s, kind, lanes).len() ==> under_gpu(s, #[trigger] lane_section(s, kind, lanes)[i]),
{
    let f = |i: int| thread_naming(s, kind, lanes[i]);
    let q = |e: EventView| under_gpu(s, e);
    assert forall|b: int, j: int| 0 <= b < lanes.len() && 0 <= j < f(b).len() implies q(#[trigger] f(b)[j]) by {
        assert(gpu_keys(s).contains((lanes[b].key.0, lanes[b].key.1)));
        assert(j == 0 || j == 1);
    }
    lemma_concat_all(lanes.len() as int, f, q);
    assert forall|i: int| 0 <= i < lane_section(s, kind, lanes).len() implies under_gpu(
        s,
        #[trigger] lane_section(s, kind, lanes)[i],
    ) by {
        assert(q(lane_section(s, kind, lanes)[i]));
    }
}

proof fn lemma_groups_under_gpu(s: Scene)
    requires
        placeable(s),
    ensures
        forall|k: (i64, i64, i64, i64)| #[trigger]
            entry_keys(stream_entries(s)).contains(k) ==> gpu_keys(s).contains((k.0, k.1)),
        forall|k: (i64, i64, i64)| #[trigger] copy_track_keys(s).contains(k) ==> gpu_keys(s).contains((k.0, k.1)),
        forall|k: (i64, i64, i64)| #[trigger]
            entry_keys(kernel_entries(s)).contains(k) ==> gpu_keys(s).contains((k.0, k.1)),
        forall|k: (i64, i64, i64)| #[trigger]
            entry_keys(call_entries(s)).contains(k) ==> gpu_keys(s).contains((k.0, k.1)),
        forall|k: (i64, i64, i64)| #[trigger]
            entry_keys(projected_entries(s)).contains(k) ==> gpu_keys(s).contains((k.0, k.1)),
        forall|k: (i64, i64, i64)| #[trigger] nvtx_keys(s).contains(k) ==> gpu_keys(s).contains((k.0, k.1)),
        forall|r: int, d: i64|
            0 <= r < s.nvtx.len() && #[trigger] range_devices(s, r).contains(d) ==> gpu_keys(s).contains(
                (s.nvtx[r].pid, d),
            ),
{
    lemma_devices_listed(s);
    lemma_groups_placed(s);
    assert forall|i: int| 0 <= i < s.memcpys.len() implies shown(s, i).contains(#[trigger] primary(s, i)) by {
        lemma_primary_shown(s, i);
    }
    lemma_tracks_placed(s);
}

/// A copy is drawn on the stream of one of its devices.
pub proof fn lemma_primary_shown(s: Scene, i: int)
    requires
        0 <= i < s.memcpys.len(),
    ensures
        shown(s, i).contains(primary(s, i)),
{
    lemma_devices_listed(s);
    lemma_copies_placed(s, i);
    let v = ordered(shown(s, i));
    assert(lists(v, shown(s, i)));
    if v.len() == 0 {
        assert(shown(s, i) =~= Set::empty());
    } else {
        assert(v.to_set().contains(v[0]));
    }
}

proof fn lemma_metadata_under_gpu(s: Scene)
    requires
        placeable(s),
    ensures
        forall|i: int| 0 <= i < metadata_events(s).len() ==> under_gpu(s, #[trigger] metadata_events(s)[i]),
{
    lemma_integers_keyed();
    lemma_triple_keyed::<i64, i64, i64>();
    lemma_quad_keyed();
    lemma_groups_under_gpu(s);
    let a = process_section(s);
    let b = stream_section(s);
    let c = core_section(s);
    let d = copy_track_section(s);
    let e = lane_section(s, ThreadTrack::Projected, projected_lanes(s));
    let f = lane_section(s, ThreadTrack::Runtime, call_lanes(s));
    let g = lane_section(s, ThreadTrack::Nvtx, nvtx_lanes(s));
    lemma_section_processes(s);
    lemma_section_streams(s);
    lemma_section_cores(s);
    lemma_section_copies(s);
    assert(forall|i: int| 0 <= i < e.len() ==> under_gpu(s, #[trigger] e[i])) by {
        lemma_group_listed(projected_entries(s));
        lemma_lane_groups(Packing::Nested, projected_entries(s), 1_000_000_000);
        lemma_lanes_under_gpu(s, ThreadTrack::Projected, projected_lanes(s));
    }
    assert(forall|i: int| 0 <= i < f.len() ==> under_gpu(s, #[trigger] f[i])) by {
        lemma_group_listed(call_entries(s));
        lemma_lane_groups(Packing::Disjoint, call_entries(s), 1_100_000_000);
        lemma_lanes_under_gpu(s, ThreadTrack::Runtime, call_lanes(s));
    }
    assert(forall|i: int| 0 <= i < g.len() ==> under_gpu(s, #[trigger] g[i])) by {
        lemma_nvtx_keys_listed(s);
        let keys = ordered(nvtx_keys(s));
        assert forall|i: int| 0 <= i < nvtx_lanes(s).len() implies gpu_keys(s).contains(
            ((#[trigger] nvtx_lanes(s)[i]).key.0, nvtx_lanes(s)[i].key.1),
        ) by {
            assert(keys.to_set().contains(keys[i]));
        }
        lemma_lanes_under_gpu(s, ThreadTrack::Nvtx, nvtx_lanes(s));
    }
    assert(metadata_events(s) == a + b + c + d + e + f + g);
    lemma_all_seven(s, a, b, c, d, e, f, g);
}

proof fn lemma_all_seven(
    s: Scene,
    a: Seq<EventView>,
    b: Seq<EventView>,
    c: Seq<EventView>,
    d: Seq<EventView>,
    e: Seq<EventView>,
    f: Seq<EventView>,
    g: Seq<EventView>,
)
    requires
        forall|i: int| 0 <= i < a.len() ==> under_gpu(s, #[trigger] a[i]),
        forall|i: int| 0 <= i < b.len() ==> under_gpu(s, #[trigger] b[i]),
        forall|i: int| 0 <= i < c.len() ==> under_gpu(s, #[trigger] c[i]),
        forall|i: int| 0 <= i < d.len() ==> under_gpu(s, #[trigger] d[i]),
        forall|i: int| 0 <= i < e.len() ==> under_gpu(s, #[trigger] e[i]),
        forall|i: int| 0 <= i < f.len() ==> under_gpu(s, #[trigger] f[i]),
        forall|i: int| 0 <= i < g.len() ==> under_gpu(s, #[trigger] g[i]),
    ensures
        forall|i: int|
            0 <= i < (a + b + c + d + e + f + g).len() ==> under_gpu(s, #[trigger] (a + b + c + d + e + f + g)[i]),
{
    lemma_both(s, a, b);
    lemma_both(s, a + b, c);
    lemma_both(s, a + b + c, d);
    lemma_both(s, a + b + c + d, e);
    lemma_both(s, a + b + c + d + e, f);
    lemma_both(s, a + b + c + d + e + f, g);
}

proof fn lemma_both(s: Scene, a: Seq<EventView>, b: Seq<EventView>)
    requires
        forall|i: int| 0 <= i < a.len() ==> under_gpu(s, #[trigger] a[i]),
        forall|i: int| 0 <= i < b.len() ==> under_gpu(s, #[trigger] b[i]),
    ensures
        forall|i: int| 0 <= i < (a + b).len() ==> under_gpu(s, #[trigger] (a + b)[i]),
{
    assert forall|i: int| 0 <= i < (a + b).len() implies under_gpu(s, #[trigger] (a + b)[i]) by {
        if i < a.len() {
            assert(under_gpu(s, a[i]));
        } else {
            assert(under_gpu(s, b[i - a.len()]));
        }
    }
}

proof fn lemma_section_processes(s: Scene)
    ensures
        forall|i: int| 0 <= i < process_section(s).len() ==> under_gpu(s, #[trigger] process_section(s)[i]),
{
    lemma_gpu_processes_listed(s);
    let keys = ordered(gpu_keys(s));
    let f = |i: int| process_naming(s, keys[i]);
    let q = |e: EventView| under_gpu(s, e);
    assert forall|b: int, j: int| 0 <= b < keys.len() && 0 <= j < f(b).len() implies q(#[trigger] f(b)[j]) by {
        assert(keys.to_set().contains(keys[b]));
        assert(gpu_keys(s).contains(keys[b]));
        assert(j == 0 || j == 1);
    }
    lemma_concat_all(keys.len() as int, f, q);
    assert forall|i: int| 0 <= i < process_section(s).len() implies under_gpu(s, #[trigger] process_section(s)[i]) by {
        assert(q(process_section(s)[i]));
    }
}

proof fn lemma_section_streams(s: Scene)
    requires
        forall|k: (i64, i64, i64, i64)| #[trigger]
            entry_keys(stream_entries(s)).contains(k) ==> gpu_keys(s).contains((k.0, k.1)),
    ensures
        forall|i: int| 0 <= i < stream_section(s).len() ==> under_gpu(s, #[trigger] stream_section(s)[i]),
{
    lemma_quad_keyed();
    let lanes = stream_lanes(s);
    lemma_group_listed(stream_entries(s));
    lemma_lane_groups(Packing::Disjoint, stream_entries(s), 1);
    let f = |i: int| stream_naming(s, lanes[i]);
    let q = |e: EventView| under_gpu(s, e);
    assert forall|b: int, j: int| 0 <= b < lanes.len() && 0 <= j < f(b).len() implies q(#[trigger] f(b)[j]) by {
        assert(entry_keys(stream_entries(s)).contains(lanes[b].key));
        assert(gpu_keys(s).contains((lanes[b].key.0, lanes[b].key.1)));
        assert(j == 0 || j == 1);
    }
    lemma_concat_all(lanes.len() as int, f, q);
    assert forall|i: int| 0 <= i < stream_section(s).len() implies under_gpu(s, #[trigger] stream_section(s)[i]) by {
        assert(q(stream_section(s)[i]));
    }
}

proof fn lemma_section_cores(s: Scene)
    requires
        forall|k: (i64, i64, i64)| #[trigger]
            entry_keys(kernel_entries(s)).contains(k) ==> gpu_keys(s).contains((k.0, k.1)),
    ensures
        forall|i: int| 0 <= i < core_section(s).len() ==> under_gpu(s, #[trigger] core_section(s)[i]),
{
    lemma_integers_keyed();
    lemma_triple_keyed::<i64, i64, i64>();
    let lanes = core_lanes(s);
    lemma_group_listed(kernel_entries(s));
    lemma_lane_groups(Packing::Disjoint, kernel_entries(s), 400_000_000);
    let f = |i: int| core_naming(s, lanes[i]);
    let q = |e: EventView| under_gpu(s, e);
    assert forall|b: int, j: int| 0 <= b < lanes.len() && 0 <= j < f(b).len() implies q(#[trigger] f(b)[j]) by {
        assert(entry_keys(kernel_entries(s)).contains(lanes[b].key));
        assert(gpu_keys(s).contains((lanes[b].key.0, lanes[b].key.1)));
        assert(j == 0 || j == 1);
    }
    lemma_concat_all(lanes.len() as int, f, q);
    assert forall|i: int| 0 <= i < core_section(s).len() implies under_gpu(s, #[trigger] core_section(s)[i]) by {
        assert(q(core_section(s)[i]));
    }
}

/// The copy tracks can be listed.
pub proof fn lemma_copy_tracks_listed(s: Scene)
    ensures
        lists(ordered(copy_track_keys(s)), copy_track_keys(s)),
{
    lemma_devices_listed(s);
    let n = s.memcpys.len() as int;
    let f = |i: int|
        Seq::new(
            ordered(shown(s, i)).len(),
            |j: int|
                (
                    pid_of(s.memcpys[i].global_pid),
                    ordered(shown(s, i))[j],
                    copy_track(s.memcpys[i].copy_kind),
                ),
        );
    let all = concat(n, f);
    vstd::seq_lib::seq_to_set_is_finite(all);
    assert forall|k: (i64, i64, i64)| #[trigger] copy_track_keys(s).contains(k) implies all.to_set().contains(k) by {
        let i = choose|i: int| 0 <= i < n && #[trigger] copy_on_track(s, i, k);
        let v = ordered(shown(s, i));
        assert(v.to_set().contains(k.1));
        let j = choose|j: int| 0 <= j < v.len() && v[j] == k.1;
        assert(f(i)[j] == k);
        let x = lemma_concat_has(n, f, i, j);
        assert(all[x] == k);
    }
    assert(copy_track_keys(s).subset_of(all.to_set()));
    vstd::set_lib::lemma_set_subset_finite(all.to_set(), copy_track_keys(s));
    lemma_integers_keyed();
    lemma_triple_keyed::<i64, i64, i64>();
    lemma_ordered_lists(copy_track_keys(s));
}

/// The tracks of ranges can be listed.
pub proof fn lemma_nvtx_keys_listed(s: Scene)
    ensures
        lists(ordered(nvtx_keys(s)), nvtx_keys(s)),
        nvtx_keys(s).finite(),
{
    lemma_devices_listed(s);
    let n = s.nvtx.len() as int;
    let f = |r: int|
        Seq::new(
            ordered(range_devices(s, r)).len(),
            |j: int| (s.nvtx[r].pid, ordered(range_devices(s, r))[j], s.nvtx[r].tid),
        );
    let all = concat(n, f);
    vstd::seq_lib::seq_to_set_is_finite(all);
    assert forall|k: (i64, i64, i64)| #[trigger] nvtx_keys(s).contains(k) implies all.to_set().contains(k) by {
        let r = choose|r: int| 0 <= r < n && #[trigger] range_on_track(s, r, k);
        let v = ordered(range_devices(s, r));
        assert(lists(v, range_devices(s, r)));
        assert(v.to_set().contains(k.1));
        let j = choose|j: int| 0 <= j < v.len() && v[j] == k.1;
        assert(f(r)[j] == k);
        let x = lemma_concat_has(n, f, r, j);
        assert(all[x] == k);
    }
    assert(nvtx_keys(s).subset_of(all.to_set()));
    vstd::set_lib::lemma_set_subset_finite(all.to_set(), nvtx_keys(s));
    lemma_integers_keyed();
    lemma_triple_keyed::<i64, i64, i64>();
    lemma_ordered_lists(nvtx_keys(s));
}

proof fn lemma_section_copies(s: Scene)
    requires
        forall|k: (i64, i64, i64)| #[trigger] copy_track_keys(s).contains(k) ==> gpu_keys(s).contains((k.0, k.1)),
    ensures
        forall|i: int| 0 <= i < copy_track_section(s).len() ==> under_gpu(s, #[trigger] copy_track_section(s)[i]),
{
    lemma_copy_tracks_listed(s);
    let keys = ordered(copy_track_keys(s));
    let f = |i: int| copy_track_naming(s, keys[i]);
    let q = |e: EventView| under_gpu(s, e);
    assert forall|b: int, j: int| 0 <= b < keys.len() && 0 <= j < f(b).len() implies q(#[trigger] f(b)[j]) by {
        assert(keys.to_set().contains(keys[b]));
        assert(gpu_keys(s).contains((keys[b].0, keys[b].1)));
        assert(j == 0 || j == 1);
    }
    lemma_concat_all(keys.len() as int, f, q);
    assert forall|i: int| 0 <= i < copy_track_section(s).len() implies under_gpu(
        s,
        #[trigger] copy_track_section(s)[i],
    ) by {
        assert(q(copy_track_section(s)[i]));
    }
}

proof fn lemma_call_under_gpu(s: Scene, c: int)
    requires
        placeable(s),
        0 <= c < s.runtime.len(),
    ensures
        forall|j: int| 0 <= j < call_events(s, c).len() ==> under_gpu(s, #[trigger] call_events(s, c)[j]),
{
    lemma_devices_listed(s);
    assert(call_placed(s, c));
    let v = ordered(call_devices(s, c));
    assert forall|j: int| 0 <= j < call_events(s, c).len() implies under_gpu(s, #[trigger] call_events(s, c)[j]) by {
        assert(v.to_set().contains(v[j]));
        assert(call_devices(s, c).contains(v[j]));
        assert(gpu_keys(s).contains((pid_of(s.runtime[c].global_tid), v[j])));
    }
}

proof fn lemma_kernel_under_gpu(s: Scene, k: int)
    requires
        placeable(s),
        0 <= k < s.kernels.len(),
    ensures
        forall|j: int| 0 <= j < kernel_events(s, k).len() ==> under_gpu(s, #[trigger] kernel_events(s, k)[j]),
{
    lemma_kernel_device_placed(s, k);
    let key = (pid_of(s.kernels[k].global_pid), s.kernels[k].device);
    assert(gpu_keys(s).contains(key));
    assert(is_gpu_process(s, gpu_process(s, key.0, key.1)));
    assert forall|j: int| 0 <= j < kernel_events(s, k).len() implies under_gpu(s, #[trigger] kernel_events(s, k)[j]) by {
        assert(0 <= j < 6);
        assert(kernel_events(s, k)[j].pid == gpu_process(s, key.0, key.1));
    }
}

proof fn lemma_copy_under_gpu(s: Scene, i: int)
    requires
        0 <= i < s.memcpys.len(),
    ensures
        forall|j: int| 0 <= j < copy_events(s, i).len() ==> under_gpu(s, #[trigger] copy_events(s, i)[j]),
{
    lemma_devices_listed(s);
    lemma_copies_placed(s, i);
    lemma_primary_shown(s, i);
    let pid = pid_of(s.memcpys[i].global_pid);
    let v = ordered(shown(s, i));
    assert forall|j: int| 0 <= j < v.len() implies gpu_keys(s).contains((pid, #[trigger] v[j])) by {
        assert(v.to_set().contains(v[j]));
    }
    assert(gpu_keys(s).contains((pid, primary(s, i))));
    let slices = copy_slices(s, i);
    let arrows = copy_arrows(s, i);
    assert forall|j: int| 0 <= j < slices.len() implies under_gpu(s, #[trigger] slices[j]) by {
        if j > 0 {
            assert(slices[j] == usage_slice(s, i, v[j - 1]));
            assert(gpu_keys(s).contains((pid, v[j - 1])));
        }
    }
    assert forall|j: int| 0 <= j < arrows.len() implies under_gpu(s, #[trigger] arrows[j]) by {
        let c = s.memcpys[i].launch_call->0 as int;
        let first = copy_arrow(s, i, c);
        let g = |j: int| pcie_arrow(s, i, c, j);
        if j >= 2 {
            let place = lemma_concat_entry(pcie_arrows(s, i) as int, g, j - 2);
            assert(place.1 == 0 || place.1 == 1);
            assert(gpu_keys(s).contains((pid, v[place.0])));
        }
    }
    lemma_both(s, slices, arrows);
}

proof fn lemma_marks_under_gpu(s: Scene)
    requires
        placeable(s),
        s.nvtx.len() <= usize::MAX,
    ensures
        forall|i: int| 0 <= i < range_events(s).len() ==> under_gpu(s, #[trigger] range_events(s)[i]),
{
    lemma_groups_under_gpu(s);
    assert forall|i: int| 0 <= i < range_events(s).len() implies under_gpu(s, #[trigger] range_events(s)[i]) by {
        let of = lemma_mark_track(s, i);
        if of.2 {
            assert(range_placed(s, of.0));
        }
        assert(gpu_keys(s).contains((s.nvtx[of.0].pid, of.1)));
    }
}

/// Every event belongs to a GPU process: calls and ranges are placed under the devices
/// that they belong to, not under a process of their own.
pub proof fn lemma_every_event_is_under_a_device(s: Scene)
    requires
        placeable(s),
        s.nvtx.len() <= usize::MAX,
    ensures
        forall|i: int| 0 <= i < timeline_events(s).len() ==> is_gpu_process(s, (#[trigger] timeline_events(s)[i]).pid),
{
    let q = |e: EventView| under_gpu(s, e);
    let a = metadata_events(s);
    let fb = |c: int| call_events(s, c);
    let fc = |k: int| kernel_events(s, k);
    let fd = |i: int| copy_events(s, i);
    let b = concat(s.runtime.len() as int, fb);
    let c = concat(s.kernels.len() as int, fc);
    let d = concat(s.memcpys.len() as int, fd);
    let e = range_events(s);
    lemma_metadata_under_gpu(s);
    lemma_marks_under_gpu(s);
    assert(forall|i: int| 0 <= i < b.len() ==> under_gpu(s, #[trigger] b[i])) by {
        assert forall|x: int, j: int| 0 <= x < s.runtime.len() && 0 <= j < fb(x).len() implies q(
            #[trigger] fb(x)[j],
        ) by {
            lemma_call_under_gpu(s, x);
        }
        lemma_concat_all(s.runtime.len() as int, fb, q);
        assert forall|i: int| 0 <= i < b.len() implies under_gpu(s, #[trigger] b[i]) by {
            assert(q(b[i]));
        }
    }
    assert(forall|i: int| 0 <= i < c.len() ==> under_gpu(s, #[trigger] c[i])) by {
        assert forall|x: int, j: int| 0 <= x < s.kernels.len() && 0 <= j < fc(x).len() implies q(
            #[trigger] fc(x)[j],
        ) by {
            lemma_kernel_under_gpu(s, x);
        }
        lemma_concat_all(s.kernels.len() as int, fc, q);
        assert forall|i: int| 0 <= i < c.len() implies under_gpu(s, #[trigger] c[i]) by {
            assert(q(c[i]));
        }
    }
    assert(forall|i: int| 0 <= i < d.len() ==> under_gpu(s, #[trigger] d[i])) by {
        assert forall|x: int, j: int| 0 <= x < s.memcpys.len() && 0 <= j < fd(x).len() implies q(
            #[trigger] fd(x)[j],
        ) by {
            lemma_copy_under_gpu(s, x);
        }
        lemma_concat_all(s.memcpys.len() as int, fd, q);
        assert forall|i: int| 0 <= i < d.len() implies under_gpu(s, #[trigger] d[i]) by {
            assert(q(d[i]));
        }
    }
    lemma_both(s, a, b);
    lemma_both(s, a + b, c);
    lemma_both(s, a + b + c, d);
    lemma_both(s, a + b + c + d, e);
    assert(timeline_events(s) == a + b + c + d + e);
    assert forall|i: int| 0 <= i < timeline_events(s).len() implies is_gpu_process(
        s,
        (#[trigger] timeline_events(s)[i]).pid,
    ) by {
        assert(under_gpu(s, timeline_events(s)[i]));
    }
}

/// The kernels of one stream are numbered in increasing order.
pub proof fn lemma_stream_positions_increase(kernels: Seq<Kernel>, i: int, j: int)
    requires
        0 <= i < j < kernels.len(),
        kernel_stream(kernels[i]) == kernel_stream(kernels[j]),
    ensures
        1 <= stream_position(kernels, i) < stream_position(kernels, j),
{
    let streams = kernel_streams(kernels);
    let x = kernel_stream(kernels[i]);
    lemma_occurrences_grow(streams, x, i + 1, j);
    assert(streams.take(i + 1).last() == x);
    assert(streams.take(j + 1).last() == x);
    assert(streams.take(j + 1).drop_last() =~= streams.take(j));
}

proof fn lemma_occurrences_grow<T>(s: Seq<T>, x: T, i: int, j: int)
    requires
        0 <= i <= j <= s.len(),
    ensures
        occurrences(s.take(i), x) <= occurrences(s.take(j), x),
    decreases j,
{
    if i < j {
        lemma_occurrences_grow(s, x, i, j - 1);
        assert(s.take(j).drop_last() =~= s.take(j - 1));
    }
}

/// The source threads can be listed.
proof fn lemma_threads_listed(s: Scene)
    ensures
        lists(ordered(source_threads(s)), source_threads(s)),
        ordered(source_threads(s)).no_duplicates(),
{
    lemma_integers_keyed();
    lemma_triple_keyed::<i64, i64, i64>();
    lemma_group_listed(projected_entries(s));
    lemma_group_listed(call_entries(s));
    lemma_nvtx_keys_listed(s);
    let a = ordered(entry_keys(projected_entries(s)));
    let b = ordered(entry_keys(call_entries(s)));
    vstd::seq_lib::seq_to_set_is_finite(a);
    vstd::seq_lib::seq_to_set_is_finite(b);
    lemma_ordered_lists(source_threads(s));
}

/// The threads of one device have different places among its tracks.
pub proof fn lemma_threads_have_own_places(s: Scene, a: (i64, i64, i64), b: (i64, i64, i64))
    requires
        source_threads(s).contains(a),
        source_threads(s).contains(b),
        a.0 == b.0,
        a.1 == b.1,
        a != b,
    ensures
        thread_rank(s, a) != thread_rank(s, b),
{
    lemma_threads_listed(s);
    let threads = ordered(source_threads(s));
    let devices = thread_devices(threads);
    assert(threads.to_set().contains(a) && threads.to_set().contains(b));
    let i = choose|i: int| 0 <= i < threads.len() && threads[i] == a;
    let j = choose|j: int| 0 <= j < threads.len() && threads[j] == b;
    lemma_index_of(threads, i);
    lemma_index_of(threads, j);
    let x = (a.0, a.1);
    if i < j {
        lemma_occurrences_grow(devices, x, i + 1, j);
        assert(devices.take(i + 1).last() == x);
        assert(devices.take(i + 1).drop_last() =~= devices.take(i));
    } else {
        lemma_occurrences_grow(devices, x, j + 1, i);
        assert(devices.take(j + 1).last() == x);
        assert(devices.take(j + 1).drop_last() =~= devices.take(j));
    }
}

/// The lanes of a kind of track.
pub open spec fn lanes_of(s: Scene, kind: ThreadTrack) -> Seq<Lane<(i64, i64, i64)>> {
    match kind {
        ThreadTrack::Projected => projected_lanes(s),
        ThreadTrack::Nvtx => nvtx_lanes(s),
        ThreadTrack::Runtime => call_lanes(s),
    }
}

/// The place that a lane of a kind has among the tracks of its device.
pub open spec fn lane_sort(s: Scene, kind: ThreadTrack, i: int) -> i64 {
    let lane = lanes_of(s, kind)[i];
    thread_sort(s, lane.key, kind, lane.lane as int)
}

/// The rank of the thread that a lane belongs to.
pub open spec fn lane_rank(s: Scene, kind: ThreadTrack, i: int) -> int {
    thread_rank(s, lanes_of(s, kind)[i].key) as int
}

proof fn lemma_lane_has_room(s: Scene, kind: ThreadTrack, i: int)
    requires
        0 <= i < lanes_of(s, kind).len(),
    ensures
        lanes_of(s, kind)[i].lane < lane_room(s),
{
    lemma_widest(lanes_of(s, kind), i);
}

/// The tracks of a thread stand together, and among them projected ranges come before
/// ranges and ranges before API calls, however many lanes there are.
pub proof fn lemma_tracks_are_grouped_by_thread(s: Scene, kind: ThreadTrack, i: int, kind1: ThreadTrack, j: int)
    requires
        0 <= i < lanes_of(s, kind).len(),
        0 <= j < lanes_of(s, kind1).len(),
        1_000_000 + (lane_rank(s, kind, i) + 1) * lane_room(s) * 5 <= i64::MAX,
        1_000_000 + (lane_rank(s, kind1, j) + 1) * lane_room(s) * 5 <= i64::MAX,
    ensures
        lane_rank(s, kind, i) < lane_rank(s, kind1, j) ==> lane_sort(s, kind, i) < lane_sort(s, kind1, j),
        lane_rank(s, kind, i) == lane_rank(s, kind1, j) && kind_order(kind) < kind_order(kind1) ==> lane_sort(
            s,
            kind,
            i,
        ) < lane_sort(s, kind1, j),
        lane_rank(s, kind, i) == lane_rank(s, kind1, j) && kind == kind1 && lanes_of(s, kind)[i].lane < lanes_of(
            s,
            kind1,
        )[j].lane ==> lane_sort(s, kind, i) < lane_sort(s, kind1, j),
{
    let room = lane_room(s);
    let a = lane_rank(s, kind, i);
    let b = lane_rank(s, kind1, j);
    lemma_lane_has_room(s, kind, i);
    lemma_lane_has_room(s, kind1, j);
    assert((a + 1) * room == a * room + room) by (nonlinear_arith);
    assert((b + 1) * room == b * room + room) by (nonlinear_arith);
    assert(0 <= a * room && 0 <= b * room) by (nonlinear_arith)
        requires
            0 <= a,
            0 <= b,
            0 <= room,
    ;
    if a < b {
        assert((a + 1) * room <= b * room) by (nonlinear_arith)
            requires
                a < b,
                0 <= room,
        ;
    }
    lemma_kind_room(kind, room);
    lemma_kind_room(kind1, room);
}

proof fn lemma_kind_room(kind: ThreadTrack, room: int)
    ensures
        kind_order(kind) * room == (match kind {
            ThreadTrack::Projected => 0,
            ThreadTrack::Nvtx => room,
            ThreadTrack::Runtime => 2 * room,
        }),
{
}

} // verus!
