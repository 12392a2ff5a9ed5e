//! The begin and end events of ranges keep their nesting.
use crate::laws::{lemma_devices_listed, lemma_projected_lanes_nest, lemma_projected_tracks_differ};
use crate::order::{lemma_integers_keyed, lemma_lists_is_ordered, lemma_sorted_same_items, not_after, ordered, sorted};
use crate::ranges::{
    all_marks, all_track_ranges, begin_spot, begins, both_ends, envelope_on, lemma_mark_keyed, opens, owner,
    range_events, range_on, track_ranges, Mark, TrackRange,
};
use crate::scene::{
    bound_devices, gpu_process, nvtx_tid, projected_entries, projected_tid, range_devices, range_group, Scene,
};
use crate::seqs::{concat, lemma_concat_entry, lemma_concat_has, lemma_picked_items, lemma_picked_pairwise, picked};
use crate::stacks::{
    encloses, has_partner, in_order, laminar, lemma_marks_replay, lemma_pair_stands_inside, paired, span, stack_after,
    well_marked, well_shaped,
};
use vstd::prelude::*;

verus! {

/// A range has a track under a device: its own, or one for its kernel envelope.
pub open spec fn has_track(s: Scene, r: int, device: i64, projected: i64) -> bool {
    &&& 0 <= r < s.nvtx.len()
    &&& (projected == 0 && range_devices(s, r).contains(device)) || (projected == 1 && bound_devices(s, r).contains(
        device,
    ))
}

/// A range on one of its tracks.
pub open spec fn track_range(s: Scene, r: int, device: i64, projected: i64) -> TrackRange {
    if projected == 1 {
        envelope_on(s, r, device)
    } else {
        range_on(s, r, device)
    }
}

/// The place of a range on one of its tracks among all of its tracks.
spec fn place_in_range(s: Scene, d: TrackRange, x: int) -> bool {
    let devices = ordered(range_devices(s, d.range as int));
    let projected = ordered(bound_devices(s, d.range as int));
    if d.projected == 0 {
        0 <= x < devices.len() && devices[x] == d.device
    } else {
        devices.len() <= x < devices.len() + projected.len() && projected[x - devices.len()] == d.device
    }
}

/// Where a range on a track comes from: the range, and its place among its tracks.
proof fn lemma_track_range_source(s: Scene, i: int) -> (from: (int, int))
    requires
        s.nvtx.len() <= usize::MAX,
        0 <= i < all_track_ranges(s).len(),
    ensures
        ({
            let d = all_track_ranges(s)[i];
            &&& d.range < s.nvtx.len()
            &&& d.projected == 0 || d.projected == 1
            &&& has_track(s, d.range as int, d.device, d.projected)
            &&& d == track_range(s, d.range as int, d.device, d.projected)
            &&& from.0 == d.range
            &&& place_in_range(s, d, from.1)
            &&& i == concat(from.0, |r: int| track_ranges(s, r)).len() + from.1
        }),
{
    lemma_devices_listed(s);
    let place = lemma_concat_entry(s.nvtx.len() as int, |r: int| track_ranges(s, r), i);
    let r = place.0;
    let devices = ordered(range_devices(s, r));
    let projected = ordered(bound_devices(s, r));
    if place.1 < devices.len() {
        assert(devices.to_set().contains(devices[place.1]));
    } else {
        assert(projected.to_set().contains(projected[place.1 - devices.len()]));
    }
    place
}

/// A range is listed once for each of its tracks.
proof fn lemma_track_ranges_differ(s: Scene, i: int, j: int)
    requires
        s.nvtx.len() <= usize::MAX,
        0 <= i < all_track_ranges(s).len(),
        0 <= j < all_track_ranges(s).len(),
        all_track_ranges(s)[i].range == all_track_ranges(s)[j].range,
        all_track_ranges(s)[i].device == all_track_ranges(s)[j].device,
        all_track_ranges(s)[i].projected == all_track_ranges(s)[j].projected,
    ensures
        i == j,
{
    let a = lemma_track_range_source(s, i);
    let b = lemma_track_range_source(s, j);
    lemma_devices_listed(s);
    lemma_integers_keyed();
    let devices = ordered(range_devices(s, a.0));
    let projected = ordered(bound_devices(s, a.0));
    lemma_lists_is_ordered(devices, range_devices(s, a.0));
    lemma_lists_is_ordered(projected, bound_devices(s, a.0));
}

/// Where a mark comes from: a range on a track, and one of its two ends.
proof fn lemma_mark_source(s: Scene, a: int) -> (from: (int, int))
    requires
        0 <= a < all_marks(s).len(),
    ensures
        0 <= from.0 < all_track_ranges(s).len(),
        from.1 == 0 || from.1 == 1,
        all_marks(s)[a] == both_ends(all_track_ranges(s)[from.0], begins(all_track_ranges(s)))[from.1],
        a == concat(
            from.0,
            |i: int| both_ends(all_track_ranges(s)[i], begins(all_track_ranges(s))),
        ).len() + from.1,
{
    let list = all_track_ranges(s);
    lemma_concat_entry(list.len() as int, |i: int| both_ends(list[i], begins(list)), a)
}

/// Both ends of a range are marked on each of its tracks.
pub proof fn lemma_mark_present(s: Scene, i: int, end: int)
    requires
        0 <= i < all_track_ranges(s).len(),
        end == 0 || end == 1,
    ensures
        all_marks(s).contains(both_ends(all_track_ranges(s)[i], begins(all_track_ranges(s)))[end]),
{
    let list = all_track_ranges(s);
    let a = lemma_concat_has(list.len() as int, |i: int| both_ends(list[i], begins(list)), i, end);
    assert(all_marks(s)[a] == both_ends(list[i], begins(list))[end]);
}

/// The ends of a range say what it is.
proof fn lemma_ends_shape(d: TrackRange, spots: Set<(i64, i64, i64)>, end: int)
    requires
        end == 0 || end == 1,
    ensures
        ({
            let m = both_ends(d, spots)[end];
            &&& owner(m) == (d.range as int, d.device as int, d.projected as int)
            &&& opens(m) == (end == 0)
            &&& span(m) == (d.start as int, d.end as int)
            &&& m.0.0 == d.pid && m.0.1 == d.tid && m.2.1 == d.projected
            &&& d.start <= d.end ==> well_shaped(m)
        }),
        paired(both_ends(d, spots)[0], both_ends(d, spots)[1]),
        paired(both_ends(d, spots)[1], both_ends(d, spots)[0]),
{
}

/// Of two marks of one range on one track, one is the begin and one is the end.
proof fn lemma_marks_differ(s: Scene, a: int, b: int)
    requires
        s.nvtx.len() <= usize::MAX,
        0 <= a < all_marks(s).len(),
        0 <= b < all_marks(s).len(),
        a != b,
        owner(all_marks(s)[a]) == owner(all_marks(s)[b]),
    ensures
        paired(all_marks(s)[a], all_marks(s)[b]),
{
    let list = all_track_ranges(s);
    let x = lemma_mark_source(s, a);
    let y = lemma_mark_source(s, b);
    lemma_ends_shape(list[x.0], begins(list), x.1);
    lemma_ends_shape(list[y.0], begins(list), y.1);
    lemma_track_ranges_differ(s, x.0, y.0);
}

/// The marks on a track of one kind.
pub open spec fn on_track(m: Mark, pid: i64, tid: i64, projected: i64) -> bool {
    m.0.0 == pid && m.0.1 == tid && m.2.1 == projected
}

/// The marks of a track, in the order in which they are drawn.
pub open spec fn track_marks(s: Scene, pid: i64, tid: i64, projected: i64) -> Seq<Mark> {
    picked(sorted(all_marks(s)), |m: Mark| on_track(m, pid, tid, projected))
}

/// Sorting keeps every mark, and no mark occurs twice.
pub proof fn lemma_sorted_marks(s: Scene)
    requires
        s.nvtx.len() <= usize::MAX,
    ensures
        forall|i: int, j: int|
            0 <= i < j < sorted(all_marks(s)).len() ==> not_after(
                #[trigger] sorted(all_marks(s))[i],
                #[trigger] sorted(all_marks(s))[j],
            ),
        forall|m: Mark| #[trigger] sorted(all_marks(s)).contains(m) <==> all_marks(s).contains(m),
        sorted(all_marks(s)).no_duplicates(),
{
    let all = all_marks(s);
    let placed = sorted(all);
    lemma_mark_keyed();
    lemma_sorted_same_items(all);
    all.to_multiset_ensures();
    placed.to_multiset_ensures();
    assert forall|m: Mark| #[trigger] placed.contains(m) <==> all.contains(m) by {
        assert(placed.contains(m) <==> placed.to_multiset().count(m) > 0);
        assert(all.contains(m) <==> all.to_multiset().count(m) > 0);
    }
    assert(all.no_duplicates()) by {
        assert forall|a: int, b: int| 0 <= a < all.len() && 0 <= b < all.len() && a != b implies all[a] != all[b] by {
            if all[a] == all[b] {
                lemma_marks_differ(s, a, b);
            }
        }
    }
    all.lemma_multiset_has_no_duplicates();
    placed.lemma_multiset_has_no_duplicates_conv();
}

proof fn lemma_not_after_in_order(a: Mark, b: Mark)
    requires
        not_after(a, b),
        a != b,
        a.0.0 == b.0.0,
        a.0.1 == b.0.1,
        a.2.1 == b.2.1,
    ensures
        in_order(a, b),
{
}

/// The range and the device that a begin or end event belongs to, and whether the
/// event shows the kernel envelope of the range.
pub proof fn lemma_mark_track(s: Scene, i: int) -> (of: (int, i64, bool))
    requires
        s.nvtx.len() <= usize::MAX,
        0 <= i < range_events(s).len(),
    ensures
        0 <= of.0 < s.nvtx.len(),
        range_events(s)[i].pid == gpu_process(s, s.nvtx[of.0].pid, of.1),
        of.2 ==> bound_devices(s, of.0).contains(of.1) && range_events(s)[i].tid == projected_tid(s, of.0, of.1),
        !of.2 ==> range_devices(s, of.0).contains(of.1) && range_events(s)[i].tid == nvtx_tid(
            s,
            range_group(s, of.0, of.1),
        ),
{
    let all = all_marks(s);
    let m = sorted(all)[i];
    lemma_sorted_marks(s);
    assert(sorted(all).contains(m));
    assert(all.contains(m));
    let a = choose|a: int| 0 <= a < all.len() && all[a] == m;
    let list = all_track_ranges(s);
    let from = lemma_mark_source(s, a);
    let d = list[from.0];
    lemma_ends_shape(d, begins(list), from.1);
    let place = lemma_track_range_source(s, from.0);
    (d.range as int, d.device, d.projected == 1)
}

/// The range is drawn on this track.
pub open spec fn on_this_track(d: TrackRange, pid: i64, tid: i64, projected: i64) -> bool {
    d.pid == pid && d.tid == tid && d.projected == projected
}

/// The range of a mark on a track.
proof fn lemma_track_source(s: Scene, pid: i64, tid: i64, projected: i64, i: int) -> (from: (int, int))
    requires
        s.nvtx.len() <= usize::MAX,
        0 <= i < track_marks(s, pid, tid, projected).len(),
    ensures
        ({
            let list = all_track_ranges(s);
            let d = list[from.0];
            let m = track_marks(s, pid, tid, projected)[i];
            &&& 0 <= from.0 < list.len()
            &&& from.1 == 0 || from.1 == 1
            &&& m == both_ends(d, begins(list))[from.1]
            &&& on_this_track(d, pid, tid, projected)
            &&& has_track(s, d.range as int, d.device, projected)
            &&& d == track_range(s, d.range as int, d.device, projected)
        }),
{
    let all = all_marks(s);
    let placed = sorted(all);
    let list = all_track_ranges(s);
    let p = |m: Mark| on_track(m, pid, tid, projected);
    let m = track_marks(s, pid, tid, projected)[i];
    lemma_sorted_marks(s);
    lemma_picked_items(placed, p);
    assert(p(m) && placed.contains(m));
    assert(all.contains(m));
    let a = choose|a: int| 0 <= a < all.len() && all[a] == m;
    let from = lemma_mark_source(s, a);
    lemma_ends_shape(list[from.0], begins(list), from.1);
    let place = lemma_track_range_source(s, from.0);
    from
}

/// The ranges on a track end no earlier than they begin, and are disjoint or nested.
pub open spec fn orderly(s: Scene, pid: i64, tid: i64, projected: i64) -> bool {
    &&& forall|r: int, d: i64|
        #[trigger] has_track(s, r, d, projected) && on_this_track(track_range(s, r, d, projected), pid, tid, projected)
            ==> track_range(s, r, d, projected).start <= track_range(s, r, d, projected).end
    &&& forall|r: int, d: i64, r1: int, d1: i64| #[trigger]
        has_track(s, r, d, projected) && #[trigger] has_track(s, r1, d1, projected) && on_this_track(
            track_range(s, r, d, projected),
            pid,
            tid,
            projected,
        ) && on_this_track(track_range(s, r1, d1, projected), pid, tid, projected) ==> laminar(
            bounds_of(track_range(s, r, d, projected)),
            bounds_of(track_range(s, r1, d1, projected)),
        )
}

pub open spec fn bounds_of(d: TrackRange) -> (int, int) {
    (d.start as int, d.end as int)
}

proof fn lemma_track_mark(s: Scene, pid: i64, tid: i64, projected: i64, i: int)
    requires
        s.nvtx.len() <= usize::MAX,
        orderly(s, pid, tid, projected),
        0 <= i < track_marks(s, pid, tid, projected).len(),
    ensures
        well_shaped(track_marks(s, pid, tid, projected)[i]),
        track_marks(s, pid, tid, projected)[i].2.1 == projected,
        has_partner(track_marks(s, pid, tid, projected), i),
{
    let t = track_marks(s, pid, tid, projected);
    let placed = sorted(all_marks(s));
    let list = all_track_ranges(s);
    let p = |m: Mark| on_track(m, pid, tid, projected);
    let from = lemma_track_source(s, pid, tid, projected, i);
    let d = list[from.0];
    lemma_ends_shape(d, begins(list), from.1);
    let other = 1 - from.1;
    let mate = both_ends(d, begins(list))[other];
    lemma_ends_shape(d, begins(list), other);
    lemma_mark_present(s, from.0, other);
    lemma_sorted_marks(s);
    lemma_picked_items(placed, p);
    assert(placed.contains(mate));
    let k = choose|k: int| 0 <= k < placed.len() && placed[k] == mate;
    assert(p(placed[k]));
    assert(t.contains(mate));
    let j = choose|j: int| 0 <= j < t.len() && t[j] == mate;
    reveal(has_partner);
    assert(owner(t[j]) == owner(t[i]) && opens(t[j]) != opens(t[i]));
}

/// The marks of a track with orderly ranges are those of a stack.
proof fn lemma_track_is_well_marked(s: Scene, pid: i64, tid: i64, projected: i64)
    requires
        s.nvtx.len() <= usize::MAX,
        orderly(s, pid, tid, projected),
    ensures
        well_marked(track_marks(s, pid, tid, projected)),
{
    let all = all_marks(s);
    let placed = sorted(all);
    let list = all_track_ranges(s);
    let p = |m: Mark| on_track(m, pid, tid, projected);
    let t = track_marks(s, pid, tid, projected);
    lemma_sorted_marks(s);
    lemma_picked_items(placed, p);
    let r = |a: Mark, b: Mark| not_after(a, b) && a != b;
    assert forall|i: int, j: int| 0 <= i < j < placed.len() implies r(#[trigger] placed[i], #[trigger] placed[j]) by {
        assert(not_after(placed[i], placed[j]));
    }
    lemma_picked_pairwise(placed, p, r);
    assert forall|i: int, j: int| 0 <= i < j < t.len() implies in_order(#[trigger] t[i], #[trigger] t[j]) by {
        assert(r(t[i], t[j]));
        assert(p(t[i]) && p(t[j]));
        lemma_not_after_in_order(t[i], t[j]);
    }
    assert forall|i: int| 0 <= i < t.len() implies well_shaped(#[trigger] t[i]) && t[i].2.1 == t[0].2.1 && has_partner(
        t,
        i,
    ) by {
        lemma_track_mark(s, pid, tid, projected, i);
        lemma_track_mark(s, pid, tid, projected, 0);
    }
    assert forall|i: int, j: int| 0 <= i < j < t.len() && owner(#[trigger] t[i]) == owner(#[trigger] t[j]) implies paired(
        t[i],
        t[j],
    ) by {
        assert(r(t[i], t[j]));
        assert(placed.contains(t[i]) && placed.contains(t[j]));
        assert(all.contains(t[i]) && all.contains(t[j]));
        let a = choose|a: int| 0 <= a < all.len() && all[a] == t[i];
        let b = choose|b: int| 0 <= b < all.len() && all[b] == t[j];
        assert(a != b);
        lemma_marks_differ(s, a, b);
    }
    assert forall|i: int, j: int| 0 <= i < t.len() && 0 <= j < t.len() implies laminar(
        span(#[trigger] t[i]),
        span(#[trigger] t[j]),
    ) by {
        let x = lemma_track_source(s, pid, tid, projected, i);
        let y = lemma_track_source(s, pid, tid, projected, j);
        lemma_ends_shape(list[x.0], begins(list), x.1);
        lemma_ends_shape(list[y.0], begins(list), y.1);
    }
    reveal(well_marked);
}

/// Projected ranges keep their nesting: the events of every projected track replay as
/// a stack that closes each envelope it opens, the one that began last first.
pub proof fn lemma_projected_ranges_are_stacks(s: Scene, pid: i64, tid: i64)
    requires
        s.nvtx.len() <= usize::MAX,
        1_000_000_000 + projected_entries(s).len() <= i64::MAX,
        forall|r: int, d: i64| #[trigger]
            has_track(s, r, d, 1) && on_this_track(envelope_on(s, r, d), pid, tid, 1) ==> s.nvtx[r].kernel_bounds@[d].0
                <= s.nvtx[r].kernel_bounds@[d].1,
    ensures
        stack_after(track_marks(s, pid, tid, 1)) == Some(Seq::<(int, int, int)>::empty()),
{
    assert forall|r: int, d: i64, r1: int, d1: i64| #[trigger]
        has_track(s, r, d, 1) && #[trigger] has_track(s, r1, d1, 1) && on_this_track(
            track_range(s, r, d, 1),
            pid,
            tid,
            1,
        ) && on_this_track(track_range(s, r1, d1, 1), pid, tid, 1) implies laminar(
        bounds_of(track_range(s, r, d, 1)),
        bounds_of(track_range(s, r1, d1, 1)),
    ) by {
        if r != r1 {
            lemma_projected_lanes_nest(s, r, d, r1, d1);
        } else if d != d1 {
            lemma_projected_tracks_differ(s, r, d, d1);
        }
    }
    lemma_track_is_well_marked(s, pid, tid, 1);
    lemma_marks_replay(track_marks(s, pid, tid, 1));
}

/// Ranges keep their nesting: where the ranges on a track are disjoint or nested, as
/// pushing and popping makes them, the events of their track replay as a stack that
/// closes each range it opens, the one that began last first.
pub proof fn lemma_ranges_are_stacks(s: Scene, pid: i64, tid: i64)
    requires
        s.nvtx.len() <= usize::MAX,
        forall|r: int|
            0 <= r < s.nvtx.len() && #[trigger] on_same_track(s, r, r, pid, tid) ==> s.nvtx[r].start <= s.nvtx[r].end,
        forall|r: int, r1: int|
            0 <= r < s.nvtx.len() && 0 <= r1 < s.nvtx.len() && on_same_track(s, r, r1, pid, tid) ==> laminar(
                (#[trigger] s.nvtx[r].start as int, s.nvtx[r].end as int),
                (#[trigger] s.nvtx[r1].start as int, s.nvtx[r1].end as int),
            ),
    ensures
        stack_after(track_marks(s, pid, tid, 0)) == Some(Seq::<(int, int, int)>::empty()),
{
    assert forall|r: int, d: i64, r1: int, d1: i64| #[trigger]
        has_track(s, r, d, 0) && #[trigger] has_track(s, r1, d1, 0) && on_this_track(
            track_range(s, r, d, 0),
            pid,
            tid,
            0,
        ) && on_this_track(track_range(s, r1, d1, 0), pid, tid, 0) implies laminar(
        bounds_of(track_range(s, r, d, 0)),
        bounds_of(track_range(s, r1, d1, 0)),
    ) by {
        assert(on_same_track(s, r, r1, pid, tid));
        let a = s.nvtx[r].start;
        let b = s.nvtx[r1].start;
    }
    assert forall|r: int, d: i64| #[trigger]
        has_track(s, r, d, 0) && on_this_track(track_range(s, r, d, 0), pid, tid, 0) implies s.nvtx[r].start
        <= s.nvtx[r].end by {
        assert(on_same_track(s, r, r, pid, tid));
    }
    lemma_track_is_well_marked(s, pid, tid, 0);
    lemma_marks_replay(track_marks(s, pid, tid, 0));
}

/// A range that takes no time is drawn inside every range around it, but for those that
/// end at the instant at which others begin.
pub proof fn lemma_instants_stand_inside(
    s: Scene,
    pid: i64,
    tid: i64,
    projected: i64,
    b: int,
    e: int,
    x: int,
    y: int,
)
    requires
        s.nvtx.len() <= usize::MAX,
        orderly(s, pid, tid, projected),
        ({
            let t = track_marks(s, pid, tid, projected);
            &&& 0 <= b < t.len() && 0 <= e < t.len() && 0 <= x < t.len() && 0 <= y < t.len()
            &&& owner(t[b]) == owner(t[e]) && opens(t[b]) && !opens(t[e])
            &&& owner(t[x]) == owner(t[y]) && opens(t[x]) && !opens(t[y])
            &&& span(t[b]).0 == span(t[b]).1
            &&& span(t[x]).0 < span(t[x]).1
            &&& encloses(span(t[x]), span(t[b]))
            &&& span(t[x]).1 == span(t[b]).0 ==> !begins(all_track_ranges(s)).contains((pid, tid, t[b].0.2))
        }),
    ensures
        x < b < e < y,
{
    let t = track_marks(s, pid, tid, projected);
    let list = all_track_ranges(s);
    lemma_track_is_well_marked(s, pid, tid, projected);
    let own = lemma_track_source(s, pid, tid, projected, b);
    let around = lemma_track_source(s, pid, tid, projected, x);
    lemma_ends_shape(list[own.0], begins(list), own.1);
    lemma_ends_shape(list[around.0], begins(list), around.1);
    if span(t[x]).0 == span(t[b]).0 {
        assert(begin_spot(list[around.0]) == begin_spot(list[own.0]));
        assert(begins(list).contains(begin_spot(list[own.0])));
    }
    lemma_pair_stands_inside(t, b, e, x, y);
}

/// Both ranges are drawn on this track under some device.
pub open spec fn on_same_track(s: Scene, r: int, r1: int, pid: i64, tid: i64) -> bool {
    &&& exists|d: i64| #[trigger] has_track(s, r, d, 0) && on_this_track(range_on(s, r, d), pid, tid, 0)
    &&& exists|d: i64| #[trigger] has_track(s, r1, d, 0) && on_this_track(range_on(s, r1, d), pid, tid, 0)
}

} // verus!
