//! What holds of every trace and every timeline.
use crate::devices::{
    active_devices, candidates, copy_devices, copy_names, inherited_devices, kernel_names, own_devices,
};
use crate::link::{
    copy_key, copy_launch, kernel_key, kernel_launch, launches, lemma_launch_is_best, matches_key, names_call,
};
use crate::model::{pid_of, RuntimeCall};
use crate::order::{
    lemma_integers_keyed, lemma_lists_is_ordered, lemma_ordered_lists, lemma_quad_keyed, lemma_triple_keyed, lists,
    ordered,
};
use crate::project::{bounds_settled, projected_kernels, projects};
use crate::scene::{
    bound_devices, call_block, call_devices, call_entries, call_group, call_placed, call_tid, copy_launched_on,
    copy_placed, copy_stream_tid, core_tid, gpu_keys, kernel_entries, kernel_group, kernel_launched_on, kernel_placed,
    kernel_stream_tid, lemma_copies_placed, lemma_extra_pids, lemma_kernel_device_placed, linked_devices, placeable,
    projected_block, projected_entries, projected_tid, range_devices, range_group, range_placed, scene_devices, shown,
    stream_entries, visible, Scene,
};
use crate::seqs::{lemma_concat_entry, lemma_concat_has};
use crate::slices::{copies_named, kernels_named, launch_named};
use crate::text::opt_text;
use crate::trace::{kernel_prepared, prepared, shown_id, trace_scene, Recorded};
use crate::tracks::{apart, distinct_items, lemma_tracks_are_overlap_safe, Packing};
use vstd::prelude::*;

verus! {

/// Records as they are read: nothing is linked or projected yet.
pub open spec fn fresh(r: Recorded) -> bool {
    &&& forall|k: int| 0 <= k < r.kernels.len() ==> (#[trigger] r.kernels[k]).launch_call is None
    &&& forall|i: int| 0 <= i < r.memcpys.len() ==> (#[trigger] r.memcpys[i]).launch_call is None
    &&& forall|n: int| 0 <= n < r.nvtx.len() ==> (#[trigger] r.nvtx[n]).kernel_bounds@.dom() =~= Set::empty()
}

/// The launch of a prepared kernel is a call of its process that is shown.
proof fn lemma_kernel_launch_shown(report: Seq<char>, before: Recorded, after: Recorded, k: int)
    requires
        prepared(report, before, after),
        fresh(before),
        before.runtime.len() <= usize::MAX,
        0 <= k < after.kernels.len(),
    ensures
        after.kernels[k].launch_call matches Some(c) ==> {
            &&& c < after.runtime.len()
            &&& visible(after.runtime[c as int])
            &&& pid_of(after.runtime[c as int].global_tid) == pid_of(after.kernels[k].global_pid)
        },
        pid_of(after.kernels[k].global_pid) == pid_of(before.kernels[k].global_pid),
        after.kernels[k].device == before.kernels[k].device,
{
    let kernel = before.kernels[k];
    assert(kernel_prepared(report, before, k, after.kernels[k]));
    assert(kernel.launch_call is None);
    if let Some(c) = after.kernels[k].launch_call {
        lemma_launch_is_best(before.runtime, kernel_key(kernel), kernel.start);
        assert(matches_key(before.runtime, c as int, kernel_key(kernel)));
        assert(names_call(kernel_launch(before.runtime, before.kernels[k]), c as int));
        assert(launches(before.kernels, before.memcpys, before.runtime, c as int));
        assert(shown_id(report, before, c as int) is Some);
        assert(opt_text(after.runtime[c as int].event_id) == shown_id(report, before, c as int));
        assert(after.runtime[c as int] == (RuntimeCall {
            event_id: after.runtime[c as int].event_id,
            ..before.runtime[c as int]
        }));
    }
}

proof fn lemma_copy_launch_shown(report: Seq<char>, before: Recorded, after: Recorded, i: int)
    requires
        prepared(report, before, after),
        fresh(before),
        before.runtime.len() <= usize::MAX,
        0 <= i < after.memcpys.len(),
    ensures
        after.memcpys[i].launch_call matches Some(c) ==> {
            &&& c < after.runtime.len()
            &&& visible(after.runtime[c as int])
            &&& pid_of(after.runtime[c as int].global_tid) == pid_of(after.memcpys[i].global_pid)
        },
{
    let copy = before.memcpys[i];
    assert(copy.launch_call is None);
    assert(after.memcpys[i].global_pid == copy.global_pid);
    if let Some(c) = after.memcpys[i].launch_call {
        lemma_launch_is_best(before.runtime, copy_key(copy), copy.start);
        assert(matches_key(before.runtime, c as int, copy_key(copy)));
        assert(names_call(copy_launch(before.runtime, before.memcpys[i]), c as int));
        assert(launches(before.kernels, before.memcpys, before.runtime, c as int));
        assert(shown_id(report, before, c as int) is Some);
        assert(opt_text(after.runtime[c as int].event_id) == shown_id(report, before, c as int));
        assert(after.runtime[c as int] == (RuntimeCall {
            event_id: after.runtime[c as int].event_id,
            ..before.runtime[c as int]
        }));
    }
}

/// A trace always has a timeline once anything in it can be shown: everything that
/// its prepared records refer to has a place, and every launch can be referred to.
pub proof fn lemma_fresh_traces_convert(report: Seq<char>, before: Recorded, after: Recorded)
    requires
        prepared(report, before, after),
        fresh(before),
        before.runtime.len() <= usize::MAX,
    ensures
        placeable(trace_scene(report, after)),
        kernels_named(trace_scene(report, after)),
        copies_named(trace_scene(report, after)),
{
    let s = trace_scene(report, after);
    assert forall|k: int| 0 <= k < s.kernels.len() implies #[trigger] kernel_placed(s, k) by {
        lemma_kernel_launch_shown(report, before, after, k);
    }
    assert forall|i: int| 0 <= i < s.memcpys.len() implies #[trigger] copy_placed(s, i) by {
        lemma_copy_launch_shown(report, before, after, i);
    }
    assert forall|c: int| 0 <= c < s.runtime.len() implies #[trigger] call_placed(s, c) by {
        let pid = pid_of(s.runtime[c].global_tid);
        assert forall|d: i64| #[trigger] call_devices(s, c).contains(d) implies gpu_keys(s).contains((pid, d)) by {
            if !linked_devices(s, c).is_empty() {
                if exists|k: int| 0 <= k < s.kernels.len() && #[trigger] kernel_launched_on(s, c, d, k) {
                    let k = choose|k: int| 0 <= k < s.kernels.len() && #[trigger] kernel_launched_on(s, c, d, k);
                    lemma_kernel_launch_shown(report, before, after, k);
                    lemma_kernel_device_placed(s, k);
                } else {
                    let i = choose|i: int| 0 <= i < s.memcpys.len() && #[trigger] copy_launched_on(s, c, d, i);
                    lemma_copy_launch_shown(report, before, after, i);
                    lemma_copies_placed(s, i);
                }
            } else {
                lemma_extra_pids(s);
            }
        }
    }
    assert forall|r: int| 0 <= r < s.nvtx.len() implies #[trigger] range_placed(s, r) by {
        assert forall|d: i64| #[trigger] bound_devices(s, r).contains(d) implies gpu_keys(s).contains(
            (s.nvtx[r].pid, d),
        ) by {
            let range = before.nvtx[r];
            assert(bounds_settled(range, before.kernels, before.runtime, after.nvtx[r], d));
            assert(!range.kernel_bounds@.dom().contains(d));
            let hit = projected_kernels(before.kernels, before.runtime, range, d);
            let k = choose|k: int| #[trigger] hit.contains(k);
            assert(hit.contains(k));
            let c = choose|c: int|
                0 <= c < before.runtime.len() && projects(before.kernels[k], #[trigger] before.runtime[c], range);
            lemma_kernel_launch_shown(report, before, after, k);
            lemma_kernel_device_placed(s, k);
        }
    }
    assert forall|k: int| 0 <= k < s.kernels.len() implies launch_named(s, (#[trigger] s.kernels[k]).launch_call) by {
        lemma_kernel_launch_shown(report, before, after, k);
    }
    assert forall|i: int| 0 <= i < s.memcpys.len() implies launch_named(s, (#[trigger] s.memcpys[i]).launch_call) by {
        lemma_copy_launch_shown(report, before, after, i);
    }
}

/// The devices that records mention, and the stand-in device.
pub open spec fn mentioned(s: Scene) -> Seq<i64> {
    Seq::new(s.kernels.len(), |k: int| s.kernels[k].device) + Seq::new(s.memcpys.len(), |i: int| s.memcpys[i].device)
        + Seq::new(s.memcpys.len(), |i: int| s.memcpys[i].src_device) + Seq::new(
        s.memcpys.len(),
        |i: int| s.memcpys[i].dst_device,
    ) + seq![-1i64]
}

proof fn lemma_candidates_mentioned(s: Scene, i: int)
    requires
        0 <= i < s.memcpys.len(),
    ensures
        forall|d: i64| #[trigger] candidates(s.memcpys[i]).contains(d) ==> mentioned(s).contains(d),
{
    let n = s.kernels.len() as int;
    let m = s.memcpys.len() as int;
    assert(mentioned(s)[n + i] == s.memcpys[i].device);
    assert(mentioned(s)[n + m + i] == s.memcpys[i].src_device);
    assert(mentioned(s)[n + m + m + i] == s.memcpys[i].dst_device);
}

proof fn lemma_own_mentioned(s: Scene)
    ensures
        forall|pid: i64, d: i64| #[trigger]
            own_devices(s.kernels, s.memcpys, pid).contains(d) ==> mentioned(s).contains(d),
        forall|d: i64| #[trigger] inherited_devices(s.kernels, s.memcpys).contains(d) ==> mentioned(s).contains(d),
        forall|i: int, d: i64|
            0 <= i < s.memcpys.len() && #[trigger] shown(s, i).contains(d) ==> mentioned(s).contains(d),
        forall|pid: i64, d: i64| #[trigger]
            active_devices(s.kernels, s.memcpys, pid).contains(d) ==> mentioned(s).contains(d),
{
    assert forall|pid: i64, d: i64| #[trigger] own_devices(s.kernels, s.memcpys, pid).contains(d) implies mentioned(
        s,
    ).contains(d) by {
        if exists|i: int| 0 <= i < s.kernels.len() && kernel_names(#[trigger] s.kernels[i], pid, d) {
            let i = choose|i: int| 0 <= i < s.kernels.len() && kernel_names(#[trigger] s.kernels[i], pid, d);
            assert(mentioned(s)[i] == d);
        } else {
            let i = choose|i: int| 0 <= i < s.memcpys.len() && copy_names(#[trigger] s.memcpys[i], pid, d);
            lemma_candidates_mentioned(s, i);
        }
    }
    assert(mentioned(s)[mentioned(s).len() - 1] == -1);
    assert forall|i: int, d: i64| 0 <= i < s.memcpys.len() && #[trigger] shown(s, i).contains(d) implies mentioned(
        s,
    ).contains(d) by {
        lemma_candidates_mentioned(s, i);
    }
    assert forall|pid: i64, d: i64| #[trigger] active_devices(s.kernels, s.memcpys, pid).contains(
        d,
    ) implies mentioned(s).contains(d) by {
        if !own_devices(s.kernels, s.memcpys, pid).contains(d) {
            let i = choose|i: int|
                0 <= i < s.memcpys.len() && pid_of((#[trigger] s.memcpys[i]).global_pid) == pid && copy_devices(
                    s.kernels,
                    s.memcpys,
                    s.memcpys[i],
                ).contains(d);
            assert(shown(s, i).contains(d));
        }
    }
}

proof fn lemma_mentioned_finite(s: Scene, set: Set<i64>)
    requires
        forall|d: i64| #[trigger] set.contains(d) ==> mentioned(s).contains(d),
    ensures
        lists(ordered(set), set),
        ordered(set).no_duplicates(),
{
    let all = mentioned(s).to_set();
    vstd::seq_lib::seq_to_set_is_finite(mentioned(s));
    assert(set.subset_of(all)) by {
        assert forall|d: i64| set.contains(d) implies all.contains(d) by {
            assert(mentioned(s).contains(d));
        }
    }
    vstd::set_lib::lemma_set_subset_finite(all, set);
    lemma_integers_keyed();
    lemma_ordered_lists(set);
}

/// The devices of every process are mentioned.
pub proof fn lemma_devices_mentioned(s: Scene)
    ensures
        forall|pid: i64, d: i64|
            scene_devices(s).contains_key(pid) && #[trigger] scene_devices(s)[pid].contains(d) ==> mentioned(
                s,
            ).contains(d),
{
    lemma_own_mentioned(s);
}

/// The devices of every copy, call and range can be listed.
pub proof fn lemma_devices_listed(s: Scene)
    ensures
        forall|i: int| 0 <= i < s.memcpys.len() ==> lists(#[trigger] ordered(shown(s, i)), shown(s, i)),
        forall|c: int| 0 <= c < s.runtime.len() ==> lists(#[trigger] ordered(call_devices(s, c)), call_devices(s, c)),
        forall|r: int| 0 <= r < s.nvtx.len() ==> lists(#[trigger] ordered(bound_devices(s, r)), bound_devices(s, r)),
        forall|r: int| 0 <= r < s.nvtx.len() ==> lists(#[trigger] ordered(range_devices(s, r)), range_devices(s, r)),
{
    lemma_own_mentioned(s);
    lemma_extra_pids(s);
    assert forall|i: int| 0 <= i < s.memcpys.len() implies lists(#[trigger] ordered(shown(s, i)), shown(s, i)) by {
        lemma_mentioned_finite(s, shown(s, i));
    }
    assert forall|pid: i64, d: i64|
        scene_devices(s).contains_key(pid) && #[trigger] scene_devices(s)[pid].contains(d) implies mentioned(
        s,
    ).contains(d) by {}
    assert forall|c: int| 0 <= c < s.runtime.len() implies lists(
        #[trigger] ordered(call_devices(s, c)),
        call_devices(s, c),
    ) by {
        assert forall|d: i64| #[trigger] call_devices(s, c).contains(d) implies mentioned(s).contains(d) by {
            if !linked_devices(s, c).is_empty() {
                if exists|k: int| 0 <= k < s.kernels.len() && #[trigger] kernel_launched_on(s, c, d, k) {
                    let k = choose|k: int| 0 <= k < s.kernels.len() && #[trigger] kernel_launched_on(s, c, d, k);
                    assert(mentioned(s)[k] == d);
                } else {
                    let i = choose|i: int| 0 <= i < s.memcpys.len() && #[trigger] copy_launched_on(s, c, d, i);
                    assert(shown(s, i).contains(d));
                }
            }
        }
        lemma_mentioned_finite(s, call_devices(s, c));
    }
    assert forall|r: int| 0 <= r < s.nvtx.len() implies lists(
        #[trigger] ordered(bound_devices(s, r)),
        bound_devices(s, r),
    ) by {
        vstd::std_specs::btree::axiom_btree_map_view_finite_dom(s.nvtx[r].kernel_bounds);
        lemma_integers_keyed();
        lemma_ordered_lists(bound_devices(s, r));
    }
    assert forall|r: int| 0 <= r < s.nvtx.len() implies lists(
        #[trigger] ordered(range_devices(s, r)),
        range_devices(s, r),
    ) by {
        if bound_devices(s, r).is_empty() {
            lemma_mentioned_finite(s, range_devices(s, r));
        } else {
            assert(lists(ordered(bound_devices(s, r)), bound_devices(s, r)));
        }
    }
}

/// Kernels on one core timeline track ran on one device of one process, one after
/// the other.
pub proof fn lemma_core_timeline_is_overlap_safe(s: Scene, j: int, k: int)
    requires
        s.kernels.len() <= usize::MAX,
        400_000_000 + s.kernels.len() <= i64::MAX,
        0 <= j < s.kernels.len(),
        0 <= k < s.kernels.len(),
        j != k,
        core_tid(s, j) == core_tid(s, k),
    ensures
        pid_of(s.kernels[j].global_pid) == pid_of(s.kernels[k].global_pid),
        s.kernels[j].device == s.kernels[k].device,
        s.kernels[j].end <= s.kernels[k].start || s.kernels[k].end <= s.kernels[j].start,
{
    lemma_integers_keyed();
    lemma_triple_keyed::<i64, i64, i64>();
    let e = kernel_entries(s);
    assert(distinct_items(e));
    lemma_tracks_are_overlap_safe(Packing::Disjoint, e, 400_000_000, j, k);
    assert(e[j].0 == kernel_group(s, j) && e[k].0 == kernel_group(s, k));
}

/// Activities on one stream track ran on one hardware stream, one after the other.
pub proof fn lemma_stream_lanes_are_overlap_safe(s: Scene, i: int, j: int)
    requires
        s.kernels.len() + s.memcpys.len() <= usize::MAX,
        1 + s.kernels.len() + s.memcpys.len() <= i64::MAX,
        0 <= i < stream_entries(s).len(),
        0 <= j < stream_entries(s).len(),
        i != j,
        activity_tid(s, i) == activity_tid(s, j),
    ensures
        stream_entries(s)[i].0 == stream_entries(s)[j].0,
        apart(stream_entries(s)[i].1, stream_entries(s)[j].1),
{
    lemma_quad_keyed();
    let e = stream_entries(s);
    assert(distinct_items(e));
    lemma_tracks_are_overlap_safe(Packing::Disjoint, e, 1, i, j);
}

/// The stream track of the `i`th activity: kernels first, then copies.
pub open spec fn activity_tid(s: Scene, i: int) -> i64 {
    if i < s.kernels.len() {
        kernel_stream_tid(s, i)
    } else {
        copy_stream_tid(s, i - s.kernels.len())
    }
}

/// A call occurs at most once under a device.
pub proof fn lemma_call_items_distinct(s: Scene)
    requires
        s.runtime.len() <= usize::MAX,
    ensures
        distinct_items(call_entries(s)),
{
    lemma_devices_listed(s);
    lemma_integers_keyed();
    let all = call_entries(s);
    let f = |c: int| call_block(s, c);
    assert forall|i: int, j: int|
        0 <= i < j < all.len() && (#[trigger] all[i]).0 == (#[trigger] all[j]).0 implies all[i].1.2 != all[j].1.2 by {
        let a = lemma_concat_entry(s.runtime.len() as int, f, i);
        let b = lemma_concat_entry(s.runtime.len() as int, f, j);
        if all[i].1.2 == all[j].1.2 {
            let devices = ordered(call_devices(s, a.0));
            lemma_lists_is_ordered(devices, call_devices(s, a.0));
            assert(devices[a.1] == devices[b.1]);
        }
    }
}

/// A range has at most one envelope under a device.
pub proof fn lemma_projected_items_distinct(s: Scene)
    requires
        s.nvtx.len() <= usize::MAX,
    ensures
        distinct_items(projected_entries(s)),
{
    lemma_devices_listed(s);
    lemma_integers_keyed();
    let all = projected_entries(s);
    let f = |r: int| projected_block(s, r);
    assert forall|i: int, j: int|
        0 <= i < j < all.len() && (#[trigger] all[i]).0 == (#[trigger] all[j]).0 implies all[i].1.2 != all[j].1.2 by {
        let a = lemma_concat_entry(s.nvtx.len() as int, f, i);
        let b = lemma_concat_entry(s.nvtx.len() as int, f, j);
        if all[i].1.2 == all[j].1.2 {
            let devices = ordered(bound_devices(s, a.0));
            lemma_lists_is_ordered(devices, bound_devices(s, a.0));
            assert(devices[a.1] == devices[b.1]);
        }
    }
}

/// The entry of a call under one of its devices.
pub proof fn lemma_call_entry_at(s: Scene, c: int, device: i64) -> (i: int)
    requires
        0 <= c < s.runtime.len(),
        call_devices(s, c).contains(device),
    ensures
        0 <= i < call_entries(s).len(),
        call_entries(s)[i] == (call_group(s, c, device), (s.runtime[c].start, s.runtime[c].end, c as usize)),
{
    lemma_devices_listed(s);
    let devices = ordered(call_devices(s, c));
    assert(devices.to_set().contains(device));
    let j = choose|j: int| 0 <= j < devices.len() && devices[j] == device;
    lemma_concat_has(s.runtime.len() as int, |c: int| call_block(s, c), c, j)
}

/// Calls on one API track were made by one thread, one after the other.
pub proof fn lemma_api_lanes_are_overlap_safe(s: Scene, c: int, device: i64, c1: int, device1: i64)
    requires
        s.runtime.len() <= usize::MAX,
        1_100_000_000 + call_entries(s).len() <= i64::MAX,
        0 <= c < s.runtime.len(),
        0 <= c1 < s.runtime.len(),
        c != c1,
        call_devices(s, c).contains(device),
        call_devices(s, c1).contains(device1),
        call_tid(s, c, device) == call_tid(s, c1, device1),
    ensures
        call_group(s, c, device) == call_group(s, c1, device1),
        s.runtime[c].end <= s.runtime[c1].start || s.runtime[c1].end <= s.runtime[c].start,
{
    lemma_integers_keyed();
    lemma_triple_keyed::<i64, i64, i64>();
    lemma_call_items_distinct(s);
    let i = lemma_call_entry_at(s, c, device);
    let j = lemma_call_entry_at(s, c1, device1);
    lemma_tracks_are_overlap_safe(Packing::Disjoint, call_entries(s), 1_100_000_000, i, j);
}

/// The entry of a range's envelope on one of its devices.
pub proof fn lemma_projected_entry_at(s: Scene, r: int, device: i64) -> (i: int)
    requires
        0 <= r < s.nvtx.len(),
        bound_devices(s, r).contains(device),
    ensures
        0 <= i < projected_entries(s).len(),
        projected_entries(s)[i] == (
            range_group(s, r, device),
            (s.nvtx[r].kernel_bounds@[device].0, s.nvtx[r].kernel_bounds@[device].1, r as usize),
        ),
{
    lemma_devices_listed(s);
    let devices = ordered(bound_devices(s, r));
    assert(devices.to_set().contains(device));
    let j = choose|j: int| 0 <= j < devices.len() && devices[j] == device;
    lemma_concat_has(s.nvtx.len() as int, |r: int| projected_block(s, r), r, j)
}

/// The envelopes of one range on two devices are on different tracks.
pub proof fn lemma_projected_tracks_differ(s: Scene, r: int, device: i64, device1: i64)
    requires
        s.nvtx.len() <= usize::MAX,
        1_000_000_000 + projected_entries(s).len() <= i64::MAX,
        0 <= r < s.nvtx.len(),
        bound_devices(s, r).contains(device),
        bound_devices(s, r).contains(device1),
        device != device1,
    ensures
        projected_tid(s, r, device) != projected_tid(s, r, device1),
{
    lemma_integers_keyed();
    lemma_triple_keyed::<i64, i64, i64>();
    lemma_projected_items_distinct(s);
    let i = lemma_projected_entry_at(s, r, device);
    let j = lemma_projected_entry_at(s, r, device1);
    if projected_tid(s, r, device) == projected_tid(s, r, device1) {
        lemma_tracks_are_overlap_safe(Packing::Nested, projected_entries(s), 1_000_000_000, i, j);
    }
}

/// Envelopes on one projected track belong to ranges of one thread and are disjoint
/// or nested: crossing envelopes are on different tracks.
pub proof fn lemma_projected_lanes_nest(s: Scene, r: int, device: i64, r1: int, device1: i64)
    requires
        s.nvtx.len() <= usize::MAX,
        1_000_000_000 + projected_entries(s).len() <= i64::MAX,
        0 <= r < s.nvtx.len(),
        0 <= r1 < s.nvtx.len(),
        r != r1,
        bound_devices(s, r).contains(device),
        bound_devices(s, r1).contains(device1),
        projected_tid(s, r, device) == projected_tid(s, r1, device1),
    ensures
        range_group(s, r, device) == range_group(s, r1, device1),
        ({
            let a = s.nvtx[r].kernel_bounds@[device];
            let b = s.nvtx[r1].kernel_bounds@[device1];
            a.1 <= b.0 || b.1 <= a.0 || (a.0 <= b.0 && b.1 <= a.1) || (b.0 <= a.0 && a.1 <= b.1)
        }),
{
    lemma_integers_keyed();
    lemma_triple_keyed::<i64, i64, i64>();
    lemma_projected_items_distinct(s);
    let i = lemma_projected_entry_at(s, r, device);
    let j = lemma_projected_entry_at(s, r1, device1);
    lemma_tracks_are_overlap_safe(Packing::Nested, projected_entries(s), 1_000_000_000, i, j);
}

} // verus!
