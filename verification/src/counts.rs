//! How many events, arrows and rows a timeline has.
use crate::emit::{timeline_events, timeline_rows};
use crate::event::EventView;
use crate::flows::{
    arrow_ids, copy_arrow_ids, ids_of, in_phase, is_pcie_finish, kernel_arrow_ids, lemma_arrows_are_paired,
    lemma_pcie_finishes, somes,
};
use crate::laws::lemma_devices_listed;
use crate::naming::metadata_events;
use crate::order::{lemma_integers_keyed, lemma_lists_is_ordered, lemma_sorted_same_items, lists, ordered, sorted};
use crate::ranges::{
    all_marks, all_track_ranges, begins, both_ends, lemma_mark_keyed, range_events, range_rows, track_ranges,
};
use crate::scene::{bound_devices, call_devices, range_devices, shown, Scene};
use crate::seqs::{concat, picked};
use crate::slices::{
    call_events, call_rows, copy_arrow, copy_arrows, copy_events, copy_slices, kernel_events, pcie_arrow, pcie_arrows,
    pcie_before,
};
use vstd::prelude::*;

verus! {

/// The sum of `f(0)`, `f(1)`, .. `f(n - 1)`.
pub open spec fn total(n: int, f: spec_fn(int) -> nat) -> nat
    decreases n,
{
    if n <= 0 {
        0
    } else {
        total(n - 1, f) + f(n - 1)
    }
}

/// The copy moves bytes between the host and a device, in either direction.
pub open spec fn crosses_host(kind: i64) -> bool {
    kind == 1 || kind == 2 || kind == 11 || kind == 12
}

/// How many PCIe arrows a copy has: one for every device that it is shown on, if it was
/// launched and crosses to or from the host.
pub open spec fn host_arrows(s: Scene, i: int) -> nat {
    if s.memcpys[i].launch_call is Some && crosses_host(s.memcpys[i].copy_kind) {
        shown(s, i).len()
    } else {
        0
    }
}

pub open spec fn arrows_of_kernel(s: Scene, k: int) -> nat {
    if s.kernels[k].launch_call is Some {
        2
    } else {
        0
    }
}

pub open spec fn arrows_of_copy(s: Scene, i: int) -> nat {
    if s.memcpys[i].launch_call is Some {
        1 + host_arrows(s, i)
    } else {
        0
    }
}

/// A call is shown once under each of its devices if it has an identifier, and else not
/// at all.
pub open spec fn slices_of_call(s: Scene, c: int) -> nat {
    if s.runtime[c].event_id is Some {
        call_devices(s, c).len()
    } else {
        0
    }
}

/// A range is shown once under each of its devices, and its kernels once on each of
/// theirs.
pub open spec fn spans_of_range(s: Scene, r: int) -> nat {
    range_devices(s, r).len() + s.nvtx[r].kernel_bounds@.dom().len()
}

proof fn lemma_concat_len<T>(n: int, f: spec_fn(int) -> Seq<T>, g: spec_fn(int) -> nat)
    requires
        forall|i: int| 0 <= i < n ==> (#[trigger] f(i)).len() == g(i),
    ensures
        concat(n, f).len() == total(n, g),
    decreases n,
{
    if n > 0 {
        lemma_concat_len(n - 1, f, g);
        assert(f(n - 1).len() == g(n - 1));
    }
}

proof fn lemma_listed_len(set: Set<i64>)
    requires
        lists(ordered(set), set),
    ensures
        ordered(set).len() == set.len(),
{
    lemma_integers_keyed();
    let v = ordered(set);
    lemma_lists_is_ordered(v, set);
    v.unique_seq_to_set();
}

proof fn lemma_pcie_of_copy(s: Scene, i: int)
    requires
        0 <= i < s.memcpys.len(),
    ensures
        pcie_arrows(s, i) == host_arrows(s, i),
{
    lemma_devices_listed(s);
    assert(lists(ordered(shown(s, i)), shown(s, i)));
    lemma_listed_len(shown(s, i));
}

proof fn lemma_pcie_total(s: Scene, n: int)
    requires
        0 <= n <= s.memcpys.len(),
    ensures
        pcie_before(s, n) == total(n, |i: int| host_arrows(s, i)),
    decreases n,
{
    if n > 0 {
        lemma_pcie_total(s, n - 1);
        lemma_pcie_of_copy(s, n - 1);
    }
}

/// The timeline has, and reports, as many PCIe arrows as launched copies to and from the
/// host have devices: one for each.
pub proof fn lemma_pcie_arrows_are_counted(s: Scene)
    ensures
        picked(timeline_events(s), |e: EventView| is_pcie_finish(e)).len() == total(
            s.memcpys.len() as int,
            |i: int| host_arrows(s, i),
        ),
        pcie_before(s, s.memcpys.len() as int) == total(s.memcpys.len() as int, |i: int| host_arrows(s, i)),
{
    lemma_pcie_finishes(s);
    lemma_pcie_total(s, s.memcpys.len() as int);
}

/// A launched kernel has two arrows, a launched copy has one and as many PCIe arrows as
/// it has devices if it crosses to or from the host, and there are no others.
pub proof fn lemma_arrows_are_counted(s: Scene)
    ensures
        picked(timeline_events(s), |e: EventView| in_phase(e, "s"@)).len() == total(
            s.kernels.len() as int,
            |k: int| arrows_of_kernel(s, k),
        ) + total(s.memcpys.len() as int, |i: int| arrows_of_copy(s, i)),
        picked(timeline_events(s), |e: EventView| in_phase(e, "f"@)).len() == total(
            s.kernels.len() as int,
            |k: int| arrows_of_kernel(s, k),
        ) + total(s.memcpys.len() as int, |i: int| arrows_of_copy(s, i)),
{
    let n = s.kernels.len() as int;
    let m = s.memcpys.len() as int;
    let starts = picked(timeline_events(s), |e: EventView| in_phase(e, "s"@));
    let finishes = picked(timeline_events(s), |e: EventView| in_phase(e, "f"@));
    lemma_arrows_are_paired(s);
    assert(ids_of(starts).len() == starts.len());
    assert(ids_of(finishes).len() == finishes.len());
    assert(somes(arrow_ids(s)).len() == arrow_ids(s).len());
    let f = |k: int| kernel_arrow_ids(s, k);
    let g = |i: int| copy_arrow_ids(s, i);
    let fk = |k: int| arrows_of_kernel(s, k);
    let gc = |i: int| arrows_of_copy(s, i);
    lemma_concat_len(n, f, fk);
    assert forall|i: int| 0 <= i < m implies (#[trigger] g(i)).len() == gc(i) by {
        lemma_pcie_of_copy(s, i);
    }
    lemma_concat_len(m, g, gc);
}

/// What is shown of a kernel: two slices, and the two ends of each arrow.
pub open spec fn events_of_kernel(s: Scene, k: int) -> nat {
    2 + 2 * arrows_of_kernel(s, k)
}

/// What is shown of a copy: a slice on its stream and one under each of its devices,
/// and the two ends of each arrow.
pub open spec fn events_of_copy(s: Scene, i: int) -> nat {
    1 + shown(s, i).len() + 2 * arrows_of_copy(s, i)
}

proof fn lemma_call_len(s: Scene, c: int)
    requires
        0 <= c < s.runtime.len(),
    ensures
        call_events(s, c).len() == slices_of_call(s, c),
        call_rows(s, c).len() == slices_of_call(s, c),
{
    lemma_devices_listed(s);
    assert(lists(ordered(call_devices(s, c)), call_devices(s, c)));
    lemma_listed_len(call_devices(s, c));
}

proof fn lemma_kernel_len(s: Scene, k: int)
    ensures
        kernel_events(s, k).len() == events_of_kernel(s, k),
{
}

proof fn lemma_copy_len(s: Scene, i: int)
    requires
        0 <= i < s.memcpys.len(),
    ensures
        copy_events(s, i).len() == events_of_copy(s, i),
{
    lemma_devices_listed(s);
    assert(lists(ordered(shown(s, i)), shown(s, i)));
    lemma_listed_len(shown(s, i));
    lemma_pcie_of_copy(s, i);
    assert(copy_slices(s, i).len() == 1 + shown(s, i).len());
    if s.memcpys[i].launch_call is Some {
        let c = s.memcpys[i].launch_call->0 as int;
        let n = pcie_arrows(s, i) as int;
        let g = |j: int| pcie_arrow(s, i, c, j);
        let two = |j: int| 2nat;
        lemma_concat_len(n, g, two);
        lemma_total_twos(n);
        assert(copy_arrows(s, i) == copy_arrow(s, i, c) + concat(n, g));
    }
}

proof fn lemma_total_twos(n: int)
    requires
        0 <= n,
    ensures
        total(n, |j: int| 2nat) == 2 * n,
    decreases n,
{
    if n > 0 {
        lemma_total_twos(n - 1);
    }
}

proof fn lemma_range_len(s: Scene, r: int)
    requires
        0 <= r < s.nvtx.len(),
    ensures
        track_ranges(s, r).len() == spans_of_range(s, r),
        range_rows(s, r).len() == spans_of_range(s, r),
{
    lemma_devices_listed(s);
    assert(lists(ordered(range_devices(s, r)), range_devices(s, r)));
    assert(lists(ordered(bound_devices(s, r)), bound_devices(s, r)));
    lemma_listed_len(range_devices(s, r));
    lemma_listed_len(bound_devices(s, r));
}

proof fn lemma_marks_len(s: Scene)
    ensures
        range_events(s).len() == 2 * total(s.nvtx.len() as int, |r: int| spans_of_range(s, r)),
{
    let list = all_track_ranges(s);
    let f = |r: int| track_ranges(s, r);
    let g = |r: int| spans_of_range(s, r);
    assert forall|r: int| 0 <= r < s.nvtx.len() implies (#[trigger] f(r)).len() == g(r) by {
        lemma_range_len(s, r);
    }
    lemma_concat_len(s.nvtx.len() as int, f, g);
    let two = |j: int| 2nat;
    lemma_concat_len(list.len() as int, |i: int| both_ends(list[i], begins(list)), two);
    lemma_total_twos(list.len() as int);
    let all = all_marks(s);
    lemma_mark_keyed();
    lemma_sorted_same_items(all);
    all.to_multiset_ensures();
    sorted(all).to_multiset_ensures();
}

/// A timeline holds its metadata, the slices of its calls, the slices and arrows of its
/// kernels and copies and the ends of its ranges, and nothing else.
pub proof fn lemma_events_are_counted(s: Scene)
    ensures
        timeline_events(s).len() == metadata_events(s).len() + total(s.runtime.len() as int, |c: int| slices_of_call(s, c))
            + total(s.kernels.len() as int, |k: int| events_of_kernel(s, k)) + total(
            s.memcpys.len() as int,
            |i: int| events_of_copy(s, i),
        ) + 2 * total(s.nvtx.len() as int, |r: int| spans_of_range(s, r)),
{
    let f = |c: int| call_events(s, c);
    let fc = |c: int| slices_of_call(s, c);
    assert forall|c: int| 0 <= c < s.runtime.len() implies (#[trigger] f(c)).len() == fc(c) by {
        lemma_call_len(s, c);
    }
    lemma_concat_len(s.runtime.len() as int, f, fc);
    let g = |k: int| kernel_events(s, k);
    let gk = |k: int| events_of_kernel(s, k);
    assert forall|k: int| 0 <= k < s.kernels.len() implies (#[trigger] g(k)).len() == gk(k) by {
        lemma_kernel_len(s, k);
    }
    lemma_concat_len(s.kernels.len() as int, g, gk);
    let h = |i: int| copy_events(s, i);
    let hi = |i: int| events_of_copy(s, i);
    assert forall|i: int| 0 <= i < s.memcpys.len() implies (#[trigger] h(i)).len() == hi(i) by {
        lemma_copy_len(s, i);
    }
    lemma_concat_len(s.memcpys.len() as int, h, hi);
    lemma_marks_len(s);
}

/// A timeline has a row for every slice of a call, one for every kernel and every copy
/// and one for every range and envelope on a device, and no others.
pub proof fn lemma_rows_are_counted(s: Scene)
    ensures
        timeline_rows(s).len() == total(s.runtime.len() as int, |c: int| slices_of_call(s, c)) + s.kernels.len()
            + s.memcpys.len() + total(s.nvtx.len() as int, |r: int| spans_of_range(s, r)),
{
    let f = |c: int| call_rows(s, c);
    let fc = |c: int| slices_of_call(s, c);
    assert forall|c: int| 0 <= c < s.runtime.len() implies (#[trigger] f(c)).len() == fc(c) by {
        lemma_call_len(s, c);
    }
    lemma_concat_len(s.runtime.len() as int, f, fc);
    let g = |r: int| range_rows(s, r);
    let gr = |r: int| spans_of_range(s, r);
    assert forall|r: int| 0 <= r < s.nvtx.len() implies (#[trigger] g(r)).len() == gr(r) by {
        lemma_range_len(s, r);
    }
    lemma_concat_len(s.nvtx.len() as int, g, gr);
}

} // verus!
