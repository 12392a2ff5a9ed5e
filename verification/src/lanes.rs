//! Lane allocation: spreading intervals that do not fit on one track over several.
use crate::order::{
    keyed, lawful, lemma_integers_keyed, lemma_sorted_is, lemma_sorted_same_items, lemma_triple_keyed,
    lemma_triple_lawful, non_decreasing, not_after, sort_items, sorted,
};
use vstd::prelude::*;
use vstd::seq_lib::group_to_multiset_ensures;

verus! {

/// The first lane whose last interval has ended by `start`, or the number of
/// lanes when there is none.
pub open spec fn first_free(ends: Seq<i64>, start: i64) -> int
    decreases ends.len(),
{
    if ends.len() == 0 {
        0
    } else {
        let earlier = first_free(ends.drop_last(), start);
        if earlier < ends.len() - 1 {
            earlier
        } else if ends.last() <= start {
            ends.len() - 1
        } else {
            ends.len() as int
        }
    }
}

/// The end of the last interval of each lane, once every interval has been placed.
pub open spec fn lane_ends<K>(intervals: Seq<(i64, i64, K)>) -> Seq<i64>
    decreases intervals.len(),
{
    if intervals.len() == 0 {
        Seq::empty()
    } else {
        let ends = lane_ends(intervals.drop_last());
        let lane = first_free(ends, intervals.last().0);
        if lane < ends.len() {
            ends.update(lane, intervals.last().1)
        } else {
            ends.push(intervals.last().1)
        }
    }
}

/// The lane of the `i`th interval: the first that is free when it starts.
pub open spec fn interval_lane<K>(intervals: Seq<(i64, i64, K)>, i: int) -> int {
    first_free(lane_ends(intervals.take(i)), intervals[i].0)
}

/// Starts do not decrease.
pub open spec fn by_start<K>(intervals: Seq<(i64, i64, K)>) -> bool {
    forall|i: int, j: int|
        0 <= i < j < intervals.len() ==> (#[trigger] intervals[i]).0 <= (#[trigger] intervals[j]).0
}

pub proof fn lemma_first_free(ends: Seq<i64>, start: i64)
    ensures
        0 <= first_free(ends, start) <= ends.len(),
        forall|j: int| 0 <= j < first_free(ends, start) ==> #[trigger] ends[j] > start,
        first_free(ends, start) < ends.len() ==> ends[first_free(ends, start)] <= start,
    decreases ends.len(),
{
    if ends.len() > 0 {
        lemma_first_free(ends.drop_last(), start);
        let r = first_free(ends, start);
        assert forall|j: int| 0 <= j < r implies #[trigger] ends[j] > start by {
            if j < ends.len() - 1 {
                assert(ends.drop_last()[j] == ends[j]);
            }
        }
    }
}

pub proof fn lemma_interval_lane_bounds<K>(intervals: Seq<(i64, i64, K)>, n: int)
    requires
        0 <= n <= intervals.len(),
    ensures
        lane_ends(intervals.take(n)).len() <= n,
        forall|i: int|
            0 <= i < n ==> 0 <= #[trigger] interval_lane(intervals, i) < lane_ends(intervals.take(n)).len(),
    decreases n,
{
    if n > 0 {
        lemma_interval_lane_bounds(intervals, n - 1);
        let prev = intervals.take(n - 1);
        assert(intervals.take(n).drop_last() =~= prev);
        lemma_first_free(lane_ends(prev), intervals[n - 1].0);
        assert forall|i: int| 0 <= i < n implies 0 <= #[trigger] interval_lane(intervals, i) < lane_ends(
            intervals.take(n),
        ).len() by {}
    }
}

/// No two intervals of one lane overlap: the earlier one has ended when the later
/// one starts.
pub proof fn lemma_interval_lanes_do_not_overlap<K>(intervals: Seq<(i64, i64, K)>, i: int, j: int)
    requires
        by_start(intervals),
        0 <= i < j < intervals.len(),
        interval_lane(intervals, i) == interval_lane(intervals, j),
    ensures
        intervals[i].1 <= intervals[j].0,
{
    lemma_interval_lane_bounds(intervals, j);
    lemma_first_free(lane_ends(intervals.take(j)), intervals[j].0);
    lemma_lane_end_covers(intervals, j, i, intervals[j].0);
}

proof fn lemma_lane_end_covers<K>(intervals: Seq<(i64, i64, K)>, n: int, i: int, at: i64)
    requires
        by_start(intervals),
        0 <= i < n <= intervals.len(),
        intervals[n - 1].0 <= at,
        lane_ends(intervals.take(n))[interval_lane(intervals, i)] <= at,
    ensures
        intervals[i].1 <= at,
    decreases n,
{
    let prev = intervals.take(n - 1);
    assert(intervals.take(n).drop_last() =~= prev);
    lemma_interval_lane_bounds(intervals, n - 1);
    lemma_first_free(lane_ends(prev), intervals[n - 1].0);
    if i < n - 1 {
        if interval_lane(intervals, i) == interval_lane(intervals, n - 1) {
            lemma_lane_end_covers(intervals, n - 1, i, intervals[n - 1].0);
        } else {
            lemma_lane_end_covers(intervals, n - 1, i, at);
        }
    }
}

/// When the `k`th interval is put on a lane, every lower lane holds an earlier
/// interval that is still open.
pub proof fn lemma_lower_lanes_are_busy<K>(intervals: Seq<(i64, i64, K)>, k: int, lane: int)
    requires
        0 <= k < intervals.len(),
        0 <= lane < interval_lane(intervals, k),
    ensures
        exists|i: int|
            0 <= i < k && #[trigger] interval_lane(intervals, i) == lane && intervals[i].1 > intervals[k].0,
{
    lemma_first_free(lane_ends(intervals.take(k)), intervals[k].0);
    lemma_lane_end_has_owner(intervals, k, lane);
}

proof fn lemma_lane_end_has_owner<K>(intervals: Seq<(i64, i64, K)>, n: int, lane: int)
    requires
        0 <= n <= intervals.len(),
        0 <= lane < lane_ends(intervals.take(n)).len(),
    ensures
        exists|i: int|
            0 <= i < n && #[trigger] interval_lane(intervals, i) == lane && intervals[i].1 == lane_ends(
                intervals.take(n),
            )[lane],
    decreases n,
{
    if n > 0 {
        let prev = intervals.take(n - 1);
        assert(intervals.take(n).drop_last() =~= prev);
        lemma_first_free(lane_ends(prev), intervals[n - 1].0);
        if interval_lane(intervals, n - 1) != lane {
            lemma_lane_end_has_owner(intervals, n - 1, lane);
        }
    }
}

/// Every lane that was opened holds an interval.
pub proof fn lemma_every_lane_used<K>(intervals: Seq<(i64, i64, K)>, lane: int)
    requires
        0 <= lane < lane_ends(intervals).len(),
    ensures
        exists|i: int| 0 <= i < intervals.len() && #[trigger] interval_lane(intervals, i) == lane,
{
    assert(intervals.take(intervals.len() as int) =~= intervals);
    lemma_lane_end_has_owner(intervals, intervals.len() as int, lane);
}

/// `lanes` puts every interval on one of `count` lanes without overlap.
pub open spec fn overlap_free<K>(intervals: Seq<(i64, i64, K)>, lanes: Seq<int>, count: int) -> bool {
    &&& lanes.len() == intervals.len()
    &&& forall|i: int| 0 <= i < lanes.len() ==> 0 <= #[trigger] lanes[i] < count
    &&& forall|i: int, j: int|
        0 <= i < j < lanes.len() && #[trigger] lanes[i] == #[trigger] lanes[j] ==> intervals[i].1
            <= intervals[j].0
}

/// The allocation uses as few lanes as any that keeps intervals from overlapping.
pub proof fn lemma_interval_lanes_are_fewest<K>(intervals: Seq<(i64, i64, K)>, lanes: Seq<int>, count: int)
    requires
        by_start(intervals),
        overlap_free(intervals, lanes, count),
    ensures
        forall|k: int| 0 <= k < intervals.len() ==> #[trigger] interval_lane(intervals, k) < count,
{
    assert forall|k: int| 0 <= k < intervals.len() implies #[trigger] interval_lane(intervals, k) < count by {
        lemma_interval_lane_bounds(intervals, intervals.len() as int);
        let depth = interval_lane(intervals, k);
        // One interval per lower lane, all of them open when the `k`th starts.
        let owner = |lane: int|
            if lane == depth {
                k
            } else {
                choose|i: int|
                    0 <= i < k && #[trigger] interval_lane(intervals, i) == lane && intervals[i].1
                        > intervals[k].0
            };
        assert forall|lane: int| 0 <= lane < depth implies 0 <= #[trigger] owner(lane) < k && interval_lane(
            intervals,
            owner(lane),
        ) == lane && intervals[owner(lane)].1 > intervals[k].0 by {
            lemma_lower_lanes_are_busy(intervals, k, lane);
        }
        let used = Seq::new((depth + 1) as nat, |lane: int| lanes[owner(lane)]);
        assert forall|a: int, b: int| 0 <= a < used.len() && 0 <= b < used.len() && a != b implies used[a]
            != used[b] by {
            assert(interval_lane(intervals, owner(a)) == a);
            assert(interval_lane(intervals, owner(b)) == b);
            let (p, q) = if owner(a) < owner(b) {
                (owner(a), owner(b))
            } else {
                (owner(b), owner(a))
            };
            assert(lanes[p] == lanes[q] ==> intervals[p].1 <= intervals[q].0);
            assert(intervals[p].1 > intervals[k].0);
            assert(intervals[q].0 <= intervals[k].0);
        }
        assert forall|a: int| 0 <= a < used.len() implies 0 <= #[trigger] used[a] < count by {
            assert(0 <= lanes[owner(a)] < count);
        }
        assert(0 <= used[0] < count);
        lemma_distinct_below(used, count);
    }
}

/// Distinct numbers below `bound` are at most `bound` many.
proof fn lemma_distinct_below(s: Seq<int>, bound: int)
    requires
        s.no_duplicates(),
        forall|i: int| 0 <= i < s.len() ==> 0 <= #[trigger] s[i] < bound,
        bound >= 0,
    ensures
        s.len() <= bound,
{
    let all = vstd::set_lib::set_int_range(0, bound);
    vstd::set_lib::lemma_int_range(0, bound);
    s.unique_seq_to_set();
    assert(s.to_set().subset_of(all));
    vstd::set_lib::lemma_len_subset(s.to_set(), all);
}

/// Puts overlapping intervals on separate lanes. The intervals are sorted by
/// start, end and key, and each goes to the first lane that is free.
pub fn allocate_interval_lanes<K: Copy + Ord>(intervals: &mut [(i64, i64, K)]) -> (lanes: Vec<(K, usize)>)
    ensures
        lawful::<K>() ==> non_decreasing(final(intervals)@) && by_start(final(intervals)@),
        keyed::<K>() ==> final(intervals)@ == sorted(old(intervals)@),
        final(intervals)@.to_multiset() == old(intervals)@.to_multiset(),
        lanes@.len() == final(intervals)@.len() == old(intervals)@.len(),
        forall|i: int|
            0 <= i < lanes@.len() ==> (#[trigger] lanes@[i]).0 == final(intervals)@[i].2 && lanes@[i].1
                == interval_lane(final(intervals)@, i),
{
    let mut items: Vec<(i64, i64, K)> = Vec::new();
    for i in 0..intervals.len()
        invariant
            items@ == intervals@.take(i as int),
    {
        items.push(intervals[i]);
        assert(intervals@.take(i as int).push(intervals@[i as int]) =~= intervals@.take(i + 1));
    }
    proof {
        assert(items@ =~= intervals@);
        if lawful::<K>() {
            lemma_interval_order::<K>();
        }
    }
    let items = sort_items(&items);
    let ghost sorted_items = items@;
    proof {
        if keyed::<K>() {
            lemma_integers_keyed();
            lemma_triple_keyed::<i64, i64, K>();
            lemma_sorted_is(sorted_items, intervals@);
        }
    }
    let mut ends: Vec<i64> = Vec::new();
    let mut lanes: Vec<(K, usize)> = Vec::new();
    assert(sorted_items.take(0) =~= Seq::empty());
    for i in 0..items.len()
        invariant
            items@ == sorted_items,
            intervals@.len() == sorted_items.len(),
            forall|k: int| 0 <= k < i ==> #[trigger] intervals@[k] == sorted_items[k],
            lanes@.len() == i,
            ends@ == lane_ends(sorted_items.take(i as int)),
            forall|k: int|
                0 <= k < i ==> (#[trigger] lanes@[k]).0 == sorted_items[k].2 && lanes@[k].1 == interval_lane(
                    sorted_items,
                    k,
                ),
    {
        let (start, end, key) = items[i];
        let lane: usize = first_free_lane(&ends, start);
        assert(sorted_items.take(i + 1).drop_last() =~= sorted_items.take(i as int));
        if lane < ends.len() {
            ends[lane] = end;
        } else {
            ends.push(end);
        }
        lanes.push((key, lane));
        intervals[i] = items[i];
    }
    proof {
        assert(intervals@ =~= sorted_items);
    }
    lanes
}

fn first_free_lane(ends: &Vec<i64>, start: i64) -> (lane: usize)
    ensures
        lane == first_free(ends@, start),
{
    for i in 0..ends.len()
        invariant
            first_free(ends@.take(i as int), start) == i,
    {
        assert(ends@.take(i + 1).drop_last() =~= ends@.take(i as int));
        if ends[i] <= start {
            proof {
                lemma_first_free_prefix(ends@, i + 1, start);
            }
            return i;
        }
    }
    assert(ends@.take(ends@.len() as int) =~= ends@);
    ends.len()
}

proof fn lemma_first_free_prefix(ends: Seq<i64>, n: int, start: i64)
    requires
        0 <= n <= ends.len(),
        first_free(ends.take(n), start) < n,
    ensures
        first_free(ends, start) == first_free(ends.take(n), start),
    decreases ends.len() - n,
{
    if n == ends.len() {
        assert(ends.take(n) =~= ends);
    } else {
        assert(ends.take(n + 1).drop_last() =~= ends.take(n));
        lemma_first_free_prefix(ends, n + 1, start);
    }
}

pub proof fn lemma_interval_order<K: Ord>()
    requires
        lawful::<K>(),
    ensures
        lawful::<(i64, i64, K)>(),
        forall|s: Seq<(i64, i64, K)>| #[trigger] non_decreasing(s) ==> by_start(s),
{
    lemma_integers_keyed();
    lemma_triple_lawful::<i64, i64, K>();
    assert forall|s: Seq<(i64, i64, K)>| #[trigger] non_decreasing(s) implies by_start(s) by {
        assert forall|i: int, j: int| 0 <= i < j < s.len() implies (#[trigger] s[i]).0 <= (#[trigger] s[j]).0 by {
            assert(not_after(s[i], s[j]));
        }
    }
}

/// What is left of a stack of open intervals once those that ended by `start` are closed.
pub open spec fn still_open(stack: Seq<i64>, start: i64) -> Seq<i64>
    decreases stack.len(),
{
    if stack.len() > 0 && stack.last() <= start {
        still_open(stack.drop_last(), start)
    } else {
        stack
    }
}

/// Whether an interval can be pushed on a stack: nothing is open, or the innermost
/// open interval encloses it.
pub open spec fn stackable(stack: Seq<i64>, start: i64, end: i64) -> bool {
    let open = still_open(stack, start);
    open.len() == 0 || end <= open.last()
}

/// The first lane on which the interval can be pushed, or the number of lanes.
pub open spec fn first_stackable(stacks: Seq<Seq<i64>>, start: i64, end: i64) -> int
    decreases stacks.len(),
{
    if stacks.len() == 0 {
        0
    } else {
        let earlier = first_stackable(stacks.drop_last(), start, end);
        if earlier < stacks.len() - 1 {
            earlier
        } else if stackable(stacks.last(), start, end) {
            stacks.len() - 1
        } else {
            stacks.len() as int
        }
    }
}

/// The lanes after closing what ended by `start` on every lane up to `lane` and
/// pushing the interval on `lane`.
pub open spec fn pushed(stacks: Seq<Seq<i64>>, lane: int, start: i64, end: i64) -> Seq<Seq<i64>> {
    if lane < stacks.len() {
        Seq::new(
            stacks.len(),
            |l: int|
                if l < lane {
                    still_open(stacks[l], start)
                } else if l == lane {
                    still_open(stacks[l], start).push(end)
                } else {
                    stacks[l]
                },
        )
    } else {
        Seq::new(stacks.len(), |l: int| still_open(stacks[l], start)).push(seq![end])
    }
}

/// The open intervals of each lane, once every interval has been placed.
pub open spec fn lane_stacks<K>(intervals: Seq<(i64, i64, K)>) -> Seq<Seq<i64>>
    decreases intervals.len(),
{
    if intervals.len() == 0 {
        Seq::empty()
    } else {
        let stacks = lane_stacks(intervals.drop_last());
        let (start, end) = (intervals.last().0, intervals.last().1);
        pushed(stacks, first_stackable(stacks, start, end), start, end)
    }
}

/// The lane of the `i`th interval: the first whose innermost open interval encloses it.
pub open spec fn laminar_lane<K>(intervals: Seq<(i64, i64, K)>, i: int) -> int {
    first_stackable(lane_stacks(intervals.take(i)), intervals[i].0, intervals[i].1)
}

/// Sorted by start; of those that start together the longest first; then by key.
pub open spec fn outer_first<K: Ord>(intervals: Seq<(i64, i64, K)>) -> bool {
    forall|i: int, j: int|
        0 <= i < j < intervals.len() ==> {
            let (a, b) = (#[trigger] intervals[i], #[trigger] intervals[j]);
            a.0 < b.0 || (a.0 == b.0 && (a.1 > b.1 || (a.1 == b.1 && not_after(a.2, b.2))))
        }
}

/// Two intervals, the first not starting later, are disjoint or nested.
pub open spec fn disjoint_or_nested<K>(a: (i64, i64, K), b: (i64, i64, K)) -> bool {
    a.1 <= b.0 || b.1 <= a.1
}

proof fn lemma_first_stackable(stacks: Seq<Seq<i64>>, start: i64, end: i64)
    ensures
        0 <= first_stackable(stacks, start, end) <= stacks.len(),
        forall|l: int|
            0 <= l < first_stackable(stacks, start, end) ==> !stackable(#[trigger] stacks[l], start, end),
        first_stackable(stacks, start, end) < stacks.len() ==> stackable(
            stacks[first_stackable(stacks, start, end)],
            start,
            end,
        ),
    decreases stacks.len(),
{
    if stacks.len() > 0 {
        lemma_first_stackable(stacks.drop_last(), start, end);
        let r = first_stackable(stacks, start, end);
        assert forall|l: int| 0 <= l < r implies !stackable(#[trigger] stacks[l], start, end) by {
            if l < stacks.len() - 1 {
                assert(stacks.drop_last()[l] == stacks[l]);
            }
        }
    }
}

pub proof fn lemma_laminar_lane_bounds<K>(intervals: Seq<(i64, i64, K)>, n: int)
    requires
        0 <= n <= intervals.len(),
    ensures
        lane_stacks(intervals.take(n)).len() <= n,
        forall|i: int|
            0 <= i < n ==> 0 <= #[trigger] laminar_lane(intervals, i) < lane_stacks(intervals.take(n)).len(),
    decreases n,
{
    if n > 0 {
        lemma_laminar_lane_bounds(intervals, n - 1);
        let prev = intervals.take(n - 1);
        assert(intervals.take(n).drop_last() =~= prev);
        lemma_first_stackable(lane_stacks(prev), intervals[n - 1].0, intervals[n - 1].1);
        assert forall|i: int| 0 <= i < n implies 0 <= #[trigger] laminar_lane(intervals, i) < lane_stacks(
            intervals.take(n),
        ).len() by {}
    }
}

/// Every lane that was opened holds an interval.
pub proof fn lemma_every_stack_used<K>(intervals: Seq<(i64, i64, K)>, lane: int)
    requires
        0 <= lane < lane_stacks(intervals).len(),
    ensures
        exists|i: int| 0 <= i < intervals.len() && #[trigger] laminar_lane(intervals, i) == lane,
    decreases intervals.len(),
{
    if intervals.len() > 0 {
        let n = intervals.len() - 1;
        let prev = intervals.drop_last();
        assert(intervals.take(n) =~= prev);
        let stacks = lane_stacks(prev);
        lemma_first_stackable(stacks, intervals[n].0, intervals[n].1);
        if lane < stacks.len() {
            lemma_every_stack_used(prev, lane);
            let i = choose|i: int| 0 <= i < prev.len() && #[trigger] laminar_lane(prev, i) == lane;
            assert(prev.take(i) =~= intervals.take(i));
            assert(laminar_lane(intervals, i) == lane);
        } else {
            assert(laminar_lane(intervals, n) == lane);
        }
    }
}

/// Inner intervals end no later than the ones around them.
spec fn nested_ends(stack: Seq<i64>) -> bool {
    forall|a: int, b: int| 0 <= a < b < stack.len() ==> #[trigger] stack[a] >= #[trigger] stack[b]
}

proof fn lemma_still_open(stack: Seq<i64>, start: i64)
    requires
        nested_ends(stack),
    ensures
        still_open(stack, start).len() <= stack.len(),
        still_open(stack, start) == stack.take(still_open(stack, start).len() as int),
        nested_ends(still_open(stack, start)),
        forall|a: int| 0 <= a < still_open(stack, start).len() ==> still_open(stack, start)[a] > start,
        forall|a: int|
            0 <= a < stack.len() && #[trigger] stack[a] > start ==> a < still_open(stack, start).len(),
    decreases stack.len(),
{
    if stack.len() > 0 && stack.last() <= start {
        lemma_still_open(stack.drop_last(), start);
        let kept = still_open(stack, start);
        assert(kept =~= stack.take(kept.len() as int));
        assert forall|a: int| 0 <= a < stack.len() && #[trigger] stack[a] > start implies a < kept.len() by {
            assert(stack.drop_last()[a] == stack[a]);
        }
    } else {
        assert(stack =~= stack.take(stack.len() as int));
    }
}

/// What the placed intervals look like on the lanes: every stack is nested, and an
/// interval that ended after `at` is still on the stack of its lane.
spec fn stacks_hold<K>(intervals: Seq<(i64, i64, K)>, n: int) -> bool {
    let stacks = lane_stacks(intervals.take(n));
    &&& stacks.len() <= n
    &&& forall|l: int| 0 <= l < stacks.len() ==> nested_ends(#[trigger] stacks[l])
    &&& forall|i: int|
        0 <= i < n ==> {
            &&& 0 <= #[trigger] laminar_lane(intervals, i) < stacks.len()
            &&& intervals[i].1 <= intervals[n - 1].0 || stacks[laminar_lane(intervals, i)].contains(intervals[i].1)
        }
}

proof fn lemma_stacks_hold<K>(intervals: Seq<(i64, i64, K)>, n: int)
    requires
        by_start(intervals),
        0 <= n <= intervals.len(),
    ensures
        stacks_hold(intervals, n),
    decreases n,
{
    if n > 0 {
        lemma_stacks_hold(intervals, n - 1);
        let prev = intervals.take(n - 1);
        assert(intervals.take(n).drop_last() =~= prev);
        let (start, end) = (intervals[n - 1].0, intervals[n - 1].1);
        let before = lane_stacks(prev);
        let lane = laminar_lane(intervals, n - 1);
        lemma_first_stackable(before, start, end);
        let after = lane_stacks(intervals.take(n));
        assert(after == pushed(before, lane, start, end));
        assert forall|l: int| 0 <= l < after.len() implies nested_ends(#[trigger] after[l]) by {
            if l < before.len() {
                lemma_still_open(before[l], start);
            }
        }
        assert forall|i: int| 0 <= i < n implies {
            &&& 0 <= #[trigger] laminar_lane(intervals, i) < after.len()
            &&& intervals[i].1 <= start || after[laminar_lane(intervals, i)].contains(intervals[i].1)
        } by {
            let l = laminar_lane(intervals, i);
            if i == n - 1 {
                assert(after[l].last() == end);
            } else {
                assert(0 <= l < before.len());
                lemma_still_open(before[l], start);
                if intervals[i].1 > start {
                    let a = choose|a: int| 0 <= a < before[l].len() && before[l][a] == intervals[i].1;
                    let kept = still_open(before[l], start);
                    assert(kept[a] == before[l][a]);
                    assert(after[l][a] == before[l][a]);
                }
            }
        }
    }
}

/// Two intervals of one lane are disjoint or nested: only a partial crossing moves
/// an interval to another lane.
pub proof fn lemma_laminar_lanes_nest<K>(intervals: Seq<(i64, i64, K)>, i: int, j: int)
    requires
        by_start(intervals),
        0 <= i < j < intervals.len(),
        laminar_lane(intervals, i) == laminar_lane(intervals, j),
    ensures
        disjoint_or_nested(intervals[i], intervals[j]),
{
    lemma_stacks_hold(intervals, j);
    let stacks = lane_stacks(intervals.take(j));
    let (start, end) = (intervals[j].0, intervals[j].1);
    let lane = laminar_lane(intervals, j);
    assert(0 <= laminar_lane(intervals, i) < stacks.len());
    lemma_first_stackable(stacks, start, end);
    lemma_still_open(stacks[lane], start);
    if intervals[i].1 > start {
        let a = choose|a: int| 0 <= a < stacks[lane].len() && stacks[lane][a] == intervals[i].1;
        let kept = still_open(stacks[lane], start);
        assert(kept[a] == intervals[i].1);
        assert(kept[a] >= kept.last());
    }
}

/// Intervals that are all disjoint or nested share the first lane.
pub proof fn lemma_laminar_intervals_share_a_lane<K>(intervals: Seq<(i64, i64, K)>)
    requires
        by_start(intervals),
        forall|i: int, j: int|
            0 <= i < j < intervals.len() ==> disjoint_or_nested(#[trigger] intervals[i], #[trigger] intervals[j]),
    ensures
        forall|k: int| 0 <= k < intervals.len() ==> #[trigger] laminar_lane(intervals, k) == 0,
{
    assert forall|k: int| 0 <= k < intervals.len() implies #[trigger] laminar_lane(intervals, k) == 0 by {
        lemma_one_stack(intervals, k);
    }
}

proof fn lemma_one_stack<K>(intervals: Seq<(i64, i64, K)>, n: int)
    requires
        by_start(intervals),
        forall|i: int, j: int|
            0 <= i < j < intervals.len() ==> disjoint_or_nested(#[trigger] intervals[i], #[trigger] intervals[j]),
        0 <= n <= intervals.len(),
    ensures
        lane_stacks(intervals.take(n)).len() <= 1,
        n < intervals.len() ==> laminar_lane(intervals, n) == 0,
        lane_stacks(intervals.take(n)).len() == 1 ==> forall|a: int|
            0 <= a < lane_stacks(intervals.take(n))[0].len() ==> exists|i: int|
                0 <= i < n && (#[trigger] intervals[i]).1 == #[trigger] lane_stacks(intervals.take(n))[0][a],
    decreases n,
{
    let stacks = lane_stacks(intervals.take(n));
    if n > 0 {
        lemma_one_stack(intervals, n - 1);
        let prev = intervals.take(n - 1);
        assert(intervals.take(n).drop_last() =~= prev);
        let before = lane_stacks(prev);
        let (start, end) = (intervals[n - 1].0, intervals[n - 1].1);
        lemma_stacks_hold(intervals, n - 1);
        lemma_first_stackable(before, start, end);
        assert(stacks == pushed(before, 0, start, end));
        assert(stacks.len() == 1);
        assert forall|a: int| 0 <= a < stacks[0].len() implies exists|i: int|
            0 <= i < n && (#[trigger] intervals[i]).1 == #[trigger] stacks[0][a] by {
            if a == stacks[0].len() - 1 {
                assert(intervals[n - 1].1 == stacks[0][a]);
            } else {
                assert(before.len() == 1);
                lemma_still_open(before[0], start);
                assert(stacks[0][a] == before[0][a]);
                let i = choose|i: int| 0 <= i < n - 1 && (#[trigger] intervals[i]).1 == before[0][a];
                assert(intervals[i].1 == stacks[0][a]);
            }
        }
    }
    if n < intervals.len() {
        let (start, end) = (intervals[n].0, intervals[n].1);
        lemma_stacks_hold(intervals, n);
        lemma_first_stackable(stacks, start, end);
        if stacks.len() == 1 {
            lemma_still_open(stacks[0], start);
            let kept = still_open(stacks[0], start);
            if kept.len() > 0 {
                let a = kept.len() - 1;
                assert(kept[a] == stacks[0][a]);
                let i = choose|i: int| 0 <= i < n && (#[trigger] intervals[i]).1 == stacks[0][a];
                assert(disjoint_or_nested(intervals[i], intervals[n]));
            }
            assert(stackable(stacks[0], start, end));
        }
    }
}

spec fn stack_views(stacks: Seq<Vec<i64>>) -> Seq<Seq<i64>> {
    Seq::new(stacks.len(), |l: int| stacks[l]@)
}

/// An interval as a key that sorts outer intervals first.
pub open spec fn outer_key<K>(interval: (i64, i64, K)) -> (i64, i128, K) {
    (interval.0, (-interval.1) as i128, interval.2)
}

pub open spec fn from_outer_key<K>(key: (i64, i128, K)) -> (i64, i64, K) {
    (key.0, (-key.1) as i64, key.2)
}

/// The intervals by start; of those that start together the longest first; then by key.
pub open spec fn outermost_first<K: Ord>(intervals: Seq<(i64, i64, K)>) -> Seq<(i64, i64, K)> {
    sorted(intervals.map_values(|v: (i64, i64, K)| outer_key(v))).map_values(
        |k: (i64, i128, K)| from_outer_key(k),
    )
}

/// Mapping two arrangements of the same items gives two arrangements of the same results.
pub proof fn lemma_map_keeps_items<A, B>(p: Seq<A>, q: Seq<A>, f: spec_fn(A) -> B)
    requires
        p.to_multiset() == q.to_multiset(),
    ensures
        p.map_values(f).to_multiset() == q.map_values(f).to_multiset(),
    decreases p.len(),
{
    broadcast use group_to_multiset_ensures;
    if p.len() == 0 {
        p.to_multiset_ensures();
        q.to_multiset_ensures();
        assert(p.map_values(f) =~= q.map_values(f));
    } else {
        let x = p.last();
        assert(p[p.len() - 1] == x);
        assert(q.to_multiset().contains(x));
        let i = choose|i: int| 0 <= i < q.len() && q[i] == x;
        let p1 = p.drop_last();
        let q1 = q.remove(i);
        assert(p =~= p1.push(x));
        assert(q1.to_multiset() =~= q.to_multiset().remove(x));
        assert(p1.to_multiset() =~= p.to_multiset().remove(x));
        lemma_map_keeps_items(p1, q1, f);
        assert(p.map_values(f) =~= p1.map_values(f).push(f(x)));
        assert(q1.map_values(f) =~= q.map_values(f).remove(i));
        assert(q.map_values(f)[i] == f(x));
        assert(q.map_values(f).to_multiset() =~= q.map_values(f).remove(i).to_multiset().insert(f(x)));
    }
}

proof fn lemma_outer_order<K: Ord>(keys: Seq<(i64, i128, K)>)
    requires
        lawful::<K>(),
        non_decreasing(keys),
        forall|i: int| 0 <= i < keys.len() ==> i64::MIN <= -(#[trigger] keys[i]).1 <= i64::MAX,
    ensures
        outer_first(keys.map_values(|k: (i64, i128, K)| from_outer_key(k))),
{
    let out = keys.map_values(|k: (i64, i128, K)| from_outer_key(k));
    assert forall|i: int, j: int| 0 <= i < j < out.len() implies {
        let (a, b) = (#[trigger] out[i], #[trigger] out[j]);
        a.0 < b.0 || (a.0 == b.0 && (a.1 > b.1 || (a.1 == b.1 && not_after(a.2, b.2))))
    } by {
        assert(not_after(keys[i], keys[j]));
    }
}

/// Arranging intervals outermost first keeps them, and sorts them by start.
pub proof fn lemma_outermost_first<K: Ord>(intervals: Seq<(i64, i64, K)>)
    requires
        keyed::<K>(),
    ensures
        outermost_first(intervals).to_multiset() == intervals.to_multiset(),
        outermost_first(intervals).len() == intervals.len(),
        by_start(outermost_first(intervals)),
        outer_first(outermost_first(intervals)),
{
    lemma_integers_keyed();
    lemma_triple_keyed::<i64, i128, K>();
    let unsorted = intervals.map_values(|v: (i64, i64, K)| outer_key(v));
    let keys = sorted(unsorted);
    let back = |k: (i64, i128, K)| from_outer_key(k);
    lemma_sorted_same_items(unsorted);
    lemma_map_keeps_items(keys, unsorted, back);
    assert(unsorted.map_values(back) =~= intervals);
    broadcast use group_to_multiset_ensures;
    keys.to_multiset_ensures();
    unsorted.to_multiset_ensures();
    intervals.to_multiset_ensures();
    outermost_first(intervals).to_multiset_ensures();
    assert forall|i: int| 0 <= i < keys.len() implies i64::MIN <= -(#[trigger] keys[i]).1 <= i64::MAX by {
        assert(keys.contains(keys[i]));
        assert(keys.to_multiset().count(keys[i]) > 0);
        assert(unsorted.contains(keys[i]));
        let j = choose|j: int| 0 <= j < unsorted.len() && unsorted[j] == keys[i];
        assert(unsorted[j] == outer_key(intervals[j]));
    }
    lemma_outer_order(keys);
}

/// Allocate lanes for begin/end events while retaining all hierarchy that can
/// be represented by a stack. Nested and disjoint intervals share a lane;
/// partially crossing intervals move to an adjacent lane.
pub fn allocate_laminar_lanes<K: Copy + Ord>(intervals: &mut [(i64, i64, K)]) -> (lanes: Vec<(K, usize)>)
    ensures
        lawful::<K>() ==> outer_first(final(intervals)@) && by_start(final(intervals)@),
        keyed::<K>() ==> final(intervals)@ == outermost_first(old(intervals)@),
        final(intervals)@.to_multiset() == old(intervals)@.to_multiset(),
        lanes@.len() == final(intervals)@.len() == old(intervals)@.len(),
        forall|i: int|
            0 <= i < lanes@.len() ==> (#[trigger] lanes@[i]).0 == final(intervals)@[i].2 && lanes@[i].1
                == laminar_lane(final(intervals)@, i),
{
    let mut keys: Vec<(i64, i128, K)> = Vec::new();
    for i in 0..intervals.len()
        invariant
            keys@ == intervals@.take(i as int).map_values(|v: (i64, i64, K)| outer_key(v)),
    {
        let (start, end, key) = intervals[i];
        keys.push((start, -(end as i128), key));
        assert(intervals@.take(i as int).push(intervals@[i as int]) =~= intervals@.take(i + 1));
    }
    let ghost unsorted = keys@;
    proof {
        assert(intervals@.take(intervals@.len() as int) =~= intervals@);
        if lawful::<K>() {
            lemma_integers_keyed();
            lemma_triple_lawful::<i64, i128, K>();
        }
    }
    let keys = sort_items(&keys);
    let ghost placed = keys@.map_values(|k: (i64, i128, K)| from_outer_key(k));
    proof {
        broadcast use group_to_multiset_ensures;
        assert forall|i: int| 0 <= i < keys@.len() implies i64::MIN <= -(#[trigger] keys@[i]).1 <= i64::MAX by {
            assert(unsorted.to_multiset().contains(keys@[i]));
            let j = choose|j: int| 0 <= j < unsorted.len() && unsorted[j] == keys@[i];
            assert(unsorted[j].1 == -intervals@[j].1);
        }
        if lawful::<K>() {
            lemma_outer_order(keys@);
        }
        if keyed::<K>() {
            lemma_integers_keyed();
            lemma_triple_keyed::<i64, i128, K>();
            lemma_sorted_is(keys@, unsorted);
            assert(unsorted =~= intervals@.map_values(|v: (i64, i64, K)| outer_key(v)));
        }
        lemma_map_keeps_items(keys@, unsorted, |k: (i64, i128, K)| from_outer_key(k));
        assert(unsorted.map_values(|k: (i64, i128, K)| from_outer_key(k)) =~= intervals@);
    }
    let mut stacks: Vec<Vec<i64>> = Vec::new();
    let mut lanes: Vec<(K, usize)> = Vec::new();
    assert(placed.take(0) =~= Seq::empty());
    assert(stack_views(stacks@) =~= Seq::empty());
    for i in 0..keys.len()
        invariant
            placed == keys@.map_values(|k: (i64, i128, K)| from_outer_key(k)),
            intervals@.len() == placed.len(),
            forall|k: int| 0 <= k < keys@.len() ==> i64::MIN <= -(#[trigger] keys@[k]).1 <= i64::MAX,
            forall|k: int| 0 <= k < i ==> #[trigger] intervals@[k] == placed[k],
            lanes@.len() == i,
            stack_views(stacks@) == lane_stacks(placed.take(i as int)),
            forall|k: int|
                0 <= k < i ==> (#[trigger] lanes@[k]).0 == placed[k].2 && lanes@[k].1 == laminar_lane(placed, k),
    {
        let (start, reversed_end, key) = keys[i];
        let end: i64 = (-reversed_end) as i64;
        assert(placed[i as int] == (start, end, key));
        assert(placed.take(i + 1).drop_last() =~= placed.take(i as int));
        let lane: usize = push_on_first_stackable(&mut stacks, start, end);
        lanes.push((key, lane));
        intervals[i] = (start, end, key);
    }
    proof {
        assert(intervals@ =~= placed);
    }
    lanes
}

fn push_on_first_stackable(stacks: &mut Vec<Vec<i64>>, start: i64, end: i64) -> (lane: usize)
    ensures
        lane == first_stackable(stack_views(old(stacks)@), start, end),
        stack_views(final(stacks)@) == pushed(stack_views(old(stacks)@), lane as int, start, end),
{
    let ghost before = stack_views(stacks@);
    let mut lane: usize = 0;
    while lane < stacks.len()
        invariant
            before == stack_views(old(stacks)@),
            stacks@.len() == before.len(),
            lane <= before.len(),
            first_stackable(before.take(lane as int), start, end) == lane,
            forall|l: int| 0 <= l < lane ==> (#[trigger] stacks@[l])@ == still_open(before[l], start),
            forall|l: int| lane <= l < before.len() ==> (#[trigger] stacks@[l])@ == before[l],
        decreases before.len() - lane,
    {
        proof {
            assert(before.take(lane + 1).drop_last() =~= before.take(lane as int));
        }
        let mut top: usize = stacks[lane].len();
        let mut stack: Vec<i64> = Vec::new();
        std::mem::swap(&mut stacks[lane], &mut stack);
        assert(stack@ == before[lane as int]);
        while top > 0 && stack[top - 1] <= start
            invariant
                top == stack@.len(),
                still_open(stack@, start) == still_open(before[lane as int], start),
            decreases top,
        {
            assert(stack@.last() <= start);
            let _ = stack.pop();
            top = top - 1;
        }
        assert(still_open(stack@, start) == stack@);
        if top == 0 || end <= stack[top - 1] {
            stack.push(end);
            std::mem::swap(&mut stacks[lane], &mut stack);
            proof {
                lemma_first_stackable_prefix(before, lane + 1, start, end);
                assert(stack_views(stacks@) =~= pushed(before, lane as int, start, end));
            }
            return lane;
        }
        std::mem::swap(&mut stacks[lane], &mut stack);
        lane = lane + 1;
    }
    let mut fresh: Vec<i64> = Vec::new();
    fresh.push(end);
    stacks.push(fresh);
    proof {
        assert(before.take(before.len() as int) =~= before);
        assert(fresh@ =~= seq![end]);
        assert(stack_views(stacks@) =~= pushed(before, lane as int, start, end));
    }
    lane
}

proof fn lemma_first_stackable_prefix(stacks: Seq<Seq<i64>>, n: int, start: i64, end: i64)
    requires
        0 <= n <= stacks.len(),
        first_stackable(stacks.take(n), start, end) < n,
    ensures
        first_stackable(stacks, start, end) == first_stackable(stacks.take(n), start, end),
    decreases stacks.len() - n,
{
    if n == stacks.len() {
        assert(stacks.take(n) =~= stacks);
    } else {
        assert(stacks.take(n + 1).drop_last() =~= stacks.take(n));
        lemma_first_stackable_prefix(stacks, n + 1, start, end);
    }
}

} // verus!
