//! Numbers tracks and packs intervals into lanes, group by group.
use crate::lanes::{
    allocate_interval_lanes, allocate_laminar_lanes, by_start, interval_lane, laminar_lane, lane_ends, lane_stacks,
    lemma_every_lane_used, lemma_every_stack_used, lemma_interval_lane_bounds, lemma_interval_lanes_do_not_overlap,
    lemma_interval_order, lemma_laminar_lane_bounds, lemma_laminar_lanes_nest, lemma_map_keeps_items,
    lemma_outermost_first, outer_key, outermost_first,
};
use crate::model::{number_at, numbered};
use crate::order::{
    keyed, lemma_integers_keyed, lemma_ordered_lists, lemma_item_keyed, lemma_sorted_same_items, lemma_triple_keyed,
    lists, ordered, ordered_vec, sorted,
};
use crate::seqs::{concat, lemma_concat_entry, lemma_concat_has, lemma_index_of, lemma_take_set};
use std::collections::{BTreeMap, BTreeSet};
use vstd::prelude::*;
use vstd::seq_lib::group_to_multiset_ensures;

verus! {

/// The place of `k` among the elements of `s` in increasing order.
pub open spec fn rank<K: Ord>(s: Set<K>, k: K) -> int {
    ordered(s).index_of(k)
}

/// `m` numbers the elements of `s` in increasing order, from `base` on.
pub open spec fn numbering<K: Ord>(m: Map<K, i64>, s: Set<K>, base: i64) -> bool {
    &&& m.dom() == s
    &&& forall|k: K| #[trigger] m.contains_key(k) ==> m[k] == numbered(base, rank(s, k))
}

/// Numbers the elements of a set in increasing order.
pub fn number_keys<K: Ord + Copy>(s: &BTreeSet<K>, base: i64) -> (m: BTreeMap<K, i64>)
    requires
        keyed::<K>(),
    ensures
        numbering(m@, s@, base),
{
    let listed = ordered_vec(s);
    let mut m: BTreeMap<K, i64> = BTreeMap::new();
    for i in 0..listed.len()
        invariant
            keyed::<K>(),
            listed@ == ordered(s@),
            listed@.no_duplicates(),
            m@.dom() == listed@.take(i as int).to_set(),
            forall|k: K| #[trigger] m@.contains_key(k) ==> m@[k] == numbered(base, rank(s@, k)),
    {
        let key = listed[i];
        m.insert(key, number_at(base, i));
        proof {
            lemma_index_of(listed@, i as int);
            lemma_take_set(listed@, i as int);
            assert(m@.dom() =~= listed@.take(i + 1).to_set());
        }
    }
    assert(listed@.take(listed@.len() as int) =~= listed@);
    m
}

/// The number kept for a key.
pub fn number_of<K: Ord + Copy>(m: &BTreeMap<K, i64>, key: K) -> (n: i64)
    requires
        keyed::<K>(),
        m@.contains_key(key),
    ensures
        n == m@[key],
{
    match m.get(&key) {
        Some(n) => *n,
        None => 0,
    }
}

/// How the intervals of a group share lanes.
#[derive(Clone, Copy, PartialEq, Eq, Structural)]
pub enum Packing {
    /// Intervals of one lane do not overlap.
    Disjoint,
    /// Intervals of one lane are disjoint or nested.
    Nested,
}

/// The order in which the intervals of a group are placed.
pub open spec fn arranged(p: Packing, intervals: Seq<(i64, i64, usize)>) -> Seq<(i64, i64, usize)> {
    match p {
        Packing::Disjoint => sorted(intervals),
        Packing::Nested => outermost_first(intervals),
    }
}

pub open spec fn lane_at(p: Packing, placed: Seq<(i64, i64, usize)>, i: int) -> int {
    match p {
        Packing::Disjoint => interval_lane(placed, i),
        Packing::Nested => laminar_lane(placed, i),
    }
}

/// How many lanes a group takes.
pub open spec fn lane_total(p: Packing, placed: Seq<(i64, i64, usize)>) -> nat {
    match p {
        Packing::Disjoint => lane_ends(placed).len(),
        Packing::Nested => lane_stacks(placed).len(),
    }
}

/// The intervals of one group, in the order of the entries.
pub open spec fn members<K>(entries: Seq<(K, (i64, i64, usize))>, key: K) -> Seq<
    (i64, i64, usize),
>
    decreases entries.len(),
{
    if entries.len() == 0 {
        Seq::empty()
    } else if entries.last().0 == key {
        members(entries.drop_last(), key).push(entries.last().1)
    } else {
        members(entries.drop_last(), key)
    }
}

pub open spec fn placed_members<K>(
    p: Packing,
    entries: Seq<(K, (i64, i64, usize))>,
    key: K,
) -> Seq<(i64, i64, usize)> {
    arranged(p, members(entries, key))
}

pub open spec fn entry_keys<K>(entries: Seq<(K, (i64, i64, usize))>) -> Set<K> {
    Set::new(|k: K| exists|i: int| 0 <= i < entries.len() && (#[trigger] entries[i]).0 == k)
}

/// The groups in increasing order.
pub open spec fn group_keys<K: Ord>(entries: Seq<(K, (i64, i64, usize))>) -> Seq<K> {
    ordered(entry_keys(entries))
}

/// The number of lanes taken by the groups before the `g`th.
pub open spec fn lanes_before<K: Ord>(p: Packing, entries: Seq<(K, (i64, i64, usize))>, g: int) -> nat
    decreases g,
{
    if g <= 0 {
        0
    } else {
        lanes_before(p, entries, g - 1) + lane_total(
            p,
            placed_members(p, entries, group_keys(entries)[g - 1]),
        )
    }
}

/// An item occurs at most once in each group.
pub open spec fn distinct_items<K>(entries: Seq<(K, (i64, i64, usize))>) -> bool {
    forall|i: int, j: int|
        0 <= i < j < entries.len() && (#[trigger] entries[i]).0 == (#[trigger] entries[j]).0 ==> entries[i].1.2
            != entries[j].1.2
}

pub open spec fn has_item<K>(
    entries: Seq<(K, (i64, i64, usize))>,
    key: K,
    item: usize,
) -> bool {
    exists|i: int| 0 <= i < entries.len() && (#[trigger] entries[i]).0 == key && entries[i].1.2 == item
}

/// The place of an item in a placed group.
pub open spec fn place_of(placed: Seq<(i64, i64, usize)>, item: usize) -> int {
    choose|i: int| 0 <= i < placed.len() && (#[trigger] placed[i]).2 == item
}

/// The track of an item: the lanes of all groups are numbered through.
pub open spec fn lane_track<K: Ord>(
    p: Packing,
    entries: Seq<(K, (i64, i64, usize))>,
    base: i64,
    key: K,
    item: usize,
) -> i64 {
    let placed = placed_members(p, entries, key);
    numbered(
        base,
        lanes_before(p, entries, group_keys(entries).index_of(key)) + lane_at(p, placed, place_of(placed, item)),
    )
}

/// A lane of a group: the group, the track and the lane's place in the group.
#[derive(Clone, Copy)]
pub struct Lane<K> {
    pub key: K,
    pub tid: i64,
    pub lane: usize,
}

/// The lanes of the `g`th group.
pub open spec fn group_lanes<K: Ord>(
    p: Packing,
    entries: Seq<(K, (i64, i64, usize))>,
    base: i64,
    g: int,
) -> Seq<Lane<K>> {
    let key = group_keys(entries)[g];
    Seq::new(
        lane_total(p, placed_members(p, entries, key)),
        |l: int| Lane { key, tid: numbered(base, lanes_before(p, entries, g) + l), lane: l as usize },
    )
}

/// Every lane, group by group.
pub open spec fn all_lanes<K: Ord>(p: Packing, entries: Seq<(K, (i64, i64, usize))>, base: i64) -> Seq<Lane<K>> {
    concat(group_keys(entries).len() as int, |g: int| group_lanes(p, entries, base, g))
}

/// Tracks for the intervals of several groups.
pub struct LanePlan<K> {
    pub groups: Vec<K>,
    pub lanes: Vec<Lane<K>>,
    pub tids: BTreeMap<(K, usize), i64>,
}

impl<K: Ord + Copy> LanePlan<K> {
    /// The plan packs the entries, numbering tracks from `base` on.
    pub open spec fn packs(
        self,
        p: Packing,
        entries: Seq<(K, (i64, i64, usize))>,
        base: i64,
    ) -> bool {
        &&& self.groups@ == group_keys(entries)
        &&& lists(self.groups@, entry_keys(entries))
        &&& self.lanes@ == all_lanes(p, entries, base)
        &&& forall|k: (K, usize)| #[trigger]
            self.tids@.contains_key(k) <==> has_item(entries, k.0, k.1)
        &&& forall|k: (K, usize)| #[trigger]
            self.tids@.contains_key(k) ==> self.tids@[k] == lane_track(p, entries, base, k.0, k.1)
    }

    /// The track of an item of a group.
    pub(crate) fn track(
        &self,
        key: K,
        item: usize,
        Ghost(p): Ghost<Packing>,
        Ghost(entries): Ghost<Seq<(K, (i64, i64, usize))>>,
        Ghost(base): Ghost<i64>,
    ) -> (tid: i64)
        requires
            keyed::<K>(),
            self.packs(p, entries, base),
            has_item(entries, key, item),
        ensures
            tid == lane_track(p, entries, base, key, item),
    {
        proof {
            lemma_item_keyed::<K>();
            assert(self.tids@.contains_key((key, item)));
        }
        number_of(&self.tids, (key, item))
    }
}

/// The lane of every member of a group, and the number of lanes.
fn pack_group(p: Packing, group: &mut Vec<(i64, i64, usize)>) -> (packed: (Vec<(usize, usize)>, usize))
    ensures
        final(group)@ == arranged(p, old(group)@),
        packed.0@.len() == final(group)@.len(),
        forall|i: int|
            0 <= i < packed.0@.len() ==> {
                &&& (#[trigger] packed.0@[i]).0 == final(group)@[i].2
                &&& packed.0@[i].1 == lane_at(p, final(group)@, i)
                &&& packed.0@[i].1 < packed.1
            },
        packed.1 == lane_total(p, final(group)@),
{
    proof {
        lemma_integers_keyed();
    }
    let lanes: Vec<(usize, usize)> = match p {
        Packing::Disjoint => allocate_interval_lanes(group.as_mut_slice()),
        Packing::Nested => allocate_laminar_lanes(group.as_mut_slice()),
    };
    let ghost placed = group@;
    let mut count: usize = 0;
    proof {
        assert(placed.take(placed.len() as int) =~= placed);
        lemma_interval_lane_bounds(placed, placed.len() as int);
        lemma_laminar_lane_bounds(placed, placed.len() as int);
    }
    for i in 0..lanes.len()
        invariant
            lanes@.len() == placed.len(),
            lane_total(p, placed) <= placed.len(),
            forall|k: int|
                0 <= k < lanes@.len() ==> {
                    &&& (#[trigger] lanes@[k]).1 == lane_at(p, placed, k)
                    &&& lanes@[k].1 < lane_total(p, placed)
                },
            count <= lane_total(p, placed),
            forall|k: int| 0 <= k < i ==> (#[trigger] lanes@[k]).1 < count,
    {
        let lane: usize = lanes[i].1;
        if lane >= count {
            count = lane + 1;
        }
    }
    proof {
        if count < lane_total(p, placed) {
            let last = lane_total(p, placed) - 1;
            match p {
                Packing::Disjoint => {
                    lemma_every_lane_used(placed, last);
                    let i = choose|i: int| 0 <= i < placed.len() && #[trigger] interval_lane(placed, i) == last;
                    assert(lanes@[i].1 == last);
                },
                Packing::Nested => {
                    lemma_every_stack_used(placed, last);
                    let i = choose|i: int| 0 <= i < placed.len() && #[trigger] laminar_lane(placed, i) == last;
                    assert(lanes@[i].1 == last);
                },
            }
        }
    }
    (lanes, count)
}

spec fn holds_item(s: Seq<(i64, i64, usize)>, item: usize) -> bool {
    exists|i: int| 0 <= i < s.len() && (#[trigger] s[i]).2 == item
}

/// The sum of the sizes of the first `g` groups.
spec fn members_total<K>(
    entries: Seq<(K, (i64, i64, usize))>,
    keys: Seq<K>,
    g: int,
) -> nat
    decreases g,
{
    if g <= 0 {
        0
    } else {
        members_total(entries, keys, g - 1) + members(entries, keys[g - 1]).len()
    }
}

proof fn lemma_members_total_step<K>(
    entries: Seq<(K, (i64, i64, usize))>,
    keys: Seq<K>,
    g: int,
)
    requires
        entries.len() > 0,
        0 <= g <= keys.len(),
        keys.no_duplicates(),
    ensures
        members_total(entries, keys, g) <= members_total(entries.drop_last(), keys, g) + 1,
        !keys.take(g).contains(entries.last().0) ==> members_total(entries, keys, g) == members_total(
            entries.drop_last(),
            keys,
            g,
        ),
    decreases g,
{
    if g > 0 {
        lemma_members_total_step(entries, keys, g - 1);
        let now = keys.take(g);
        let before = keys.take(g - 1);
        let key = entries.last().0;
        if before.contains(key) {
            let i = choose|i: int| 0 <= i < before.len() && before[i] == key;
            assert(now[i] == key);
            assert(keys[i] != keys[g - 1]);
        }
        if keys[g - 1] == key {
            assert(now[g - 1] == key);
        }
    }
}

proof fn lemma_members_total<K>(
    entries: Seq<(K, (i64, i64, usize))>,
    keys: Seq<K>,
    g: int,
)
    requires
        0 <= g <= keys.len(),
        keys.no_duplicates(),
    ensures
        members_total(entries, keys, g) <= entries.len(),
    decreases entries.len(), g,
{
    if entries.len() == 0 {
        if g > 0 {
            lemma_members_total(entries, keys, g - 1);
        }
    } else {
        lemma_members_total(entries.drop_last(), keys, g);
        lemma_members_total_step(entries, keys, g);
    }
}

proof fn lemma_arranged_items(p: Packing, s: Seq<(i64, i64, usize)>)
    ensures
        arranged(p, s).len() == s.len(),
        forall|item: usize| #[trigger] holds_item(s, item) <==> holds_item(arranged(p, s), item),
        (forall|i: int, j: int| 0 <= i < j < s.len() ==> (#[trigger] s[i]).2 != (#[trigger] s[j]).2) ==> (forall|
            i: int,
            j: int,
        |
            0 <= i < j < arranged(p, s).len() ==> (#[trigger] arranged(p, s)[i]).2 != (#[trigger] arranged(
                p,
                s,
            )[j]).2),
{
    lemma_integers_keyed();
    lemma_triple_keyed::<i64, i64, usize>();
    lemma_triple_keyed::<i64, i128, usize>();
    let pick = |v: (i64, i64, usize)| v.2;
    let a = arranged(p, s);
    assert(a.map_values(pick).to_multiset() == s.map_values(pick).to_multiset()) by {
        match p {
            Packing::Disjoint => {
                lemma_sorted_same_items(s);
                lemma_map_keeps_items(a, s, pick);
            },
            Packing::Nested => {
                let keys = s.map_values(|v: (i64, i64, usize)| outer_key(v));
                lemma_sorted_same_items(keys);
                let pick_key = |k: (i64, i128, usize)| k.2;
                lemma_map_keeps_items(sorted(keys), keys, pick_key);
                assert(a.map_values(pick) =~= sorted(keys).map_values(pick_key));
                assert(s.map_values(pick) =~= keys.map_values(pick_key));
            },
        }
    }
    let x = a.map_values(pick);
    let y = s.map_values(pick);
    broadcast use group_to_multiset_ensures;
    x.to_multiset_ensures();
    y.to_multiset_ensures();
    assert forall|item: usize| #[trigger] holds_item(s, item) <==> holds_item(a, item) by {
        if holds_item(s, item) {
            let i = choose|i: int| 0 <= i < s.len() && (#[trigger] s[i]).2 == item;
            assert(y[i] == item);
            assert(x.to_multiset().contains(item));
            let j = choose|j: int| 0 <= j < x.len() && x[j] == item;
            assert(a[j].2 == item);
        }
        if holds_item(a, item) {
            let i = choose|i: int| 0 <= i < a.len() && (#[trigger] a[i]).2 == item;
            assert(x[i] == item);
            assert(y.to_multiset().contains(item));
            let j = choose|j: int| 0 <= j < y.len() && y[j] == item;
            assert(s[j].2 == item);
        }
    }
    if forall|i: int, j: int| 0 <= i < j < s.len() ==> (#[trigger] s[i]).2 != (#[trigger] s[j]).2 {
        assert(y.no_duplicates()) by {
            assert forall|i: int, j: int| 0 <= i < y.len() && 0 <= j < y.len() && i != j implies y[i] != y[j] by {
                if i < j {
                    assert(s[i].2 != s[j].2);
                } else {
                    assert(s[j].2 != s[i].2);
                }
            }
        }
        y.lemma_multiset_has_no_duplicates();
        x.lemma_multiset_has_no_duplicates_conv();
        assert forall|i: int, j: int| 0 <= i < j < a.len() implies (#[trigger] a[i]).2 != (#[trigger] a[j]).2 by {
            assert(x[i] != x[j]);
        }
    }
}

proof fn lemma_members_items<K>(entries: Seq<(K, (i64, i64, usize))>, key: K)
    ensures
        forall|item: usize| #[trigger]
            has_item(entries, key, item) <==> holds_item(members(entries, key), item),
        distinct_items(entries) ==> (forall|i: int, j: int|
            0 <= i < j < members(entries, key).len() ==> (#[trigger] members(entries, key)[i]).2 != (
            #[trigger] members(entries, key)[j]).2),
    decreases entries.len(),
{
    let m = members(entries, key);
    if entries.len() > 0 {
        let rest = entries.drop_last();
        lemma_members_items(rest, key);
        let q = members(rest, key);
        let e = entries.last();
        assert(entries[entries.len() - 1] == e);
        assert forall|item: usize| #[trigger] has_item(entries, key, item) <==> holds_item(m, item) by {
            if has_item(entries, key, item) {
                let i = choose|i: int|
                    0 <= i < entries.len() && (#[trigger] entries[i]).0 == key && entries[i].1.2 == item;
                if i < rest.len() {
                    assert(rest[i].0 == key && rest[i].1.2 == item);
                    assert(has_item(rest, key, item));
                    let k = choose|k: int| 0 <= k < q.len() && (#[trigger] q[k]).2 == item;
                    assert(m[k] == q[k]);
                } else {
                    assert(m[m.len() - 1].2 == item);
                }
            }
            if holds_item(m, item) {
                let i = choose|i: int| 0 <= i < m.len() && (#[trigger] m[i]).2 == item;
                if i < q.len() {
                    assert(q[i].2 == item);
                    assert(has_item(rest, key, item));
                    let k = choose|k: int|
                        0 <= k < rest.len() && (#[trigger] rest[k]).0 == key && rest[k].1.2 == item;
                    assert(entries[k].0 == key);
                }
            }
        }
        if distinct_items(entries) {
            assert(distinct_items(rest)) by {
                assert forall|i: int, j: int|
                    0 <= i < j < rest.len() && (#[trigger] rest[i]).0 == (#[trigger] rest[j]).0 implies rest[i].1.2
                    != rest[j].1.2 by {
                    assert(entries[i].0 == entries[j].0);
                }
            }
            assert forall|i: int, j: int| 0 <= i < j < m.len() implies (#[trigger] m[i]).2 != (
            #[trigger] m[j]).2 by {
                if j < q.len() {
                    assert(q[i].2 != q[j].2);
                } else {
                    assert(q[i].2 == m[i].2);
                    assert(has_item(rest, key, q[i].2));
                    let k = choose|k: int|
                        0 <= k < rest.len() && (#[trigger] rest[k]).0 == key && rest[k].1.2 == q[i].2;
                    assert(entries[k].0 == entries[entries.len() - 1].0);
                }
            }
        }
    }
}

/// The members of each group that occurs.
spec fn grouped<K: Ord>(
    m: Map<K, Vec<(i64, i64, usize)>>,
    entries: Seq<(K, (i64, i64, usize))>,
) -> bool {
    &&& m.dom() == entry_keys(entries)
    &&& forall|k: K| #[trigger] m.contains_key(k) ==> m[k]@ == members(entries, k)
}

fn group_entries<K: Ord + Copy>(entries: &Vec<(K, (i64, i64, usize))>) -> (grouping: (
    BTreeMap<K, Vec<(i64, i64, usize)>>,
    BTreeSet<K>,
))
    requires
        keyed::<K>(),
    ensures
        grouped(grouping.0@, entries@),
        grouping.1@ == entry_keys(entries@),
{
    let mut map: BTreeMap<K, Vec<(i64, i64, usize)>> = BTreeMap::new();
    let mut keys: BTreeSet<K> = BTreeSet::new();
    assert(keys@ =~= entry_keys(entries@.take(0)));
    assert(map@.dom() =~= entry_keys(entries@.take(0)));
    for i in 0..entries.len()
        invariant
            keyed::<K>(),
            grouped(map@, entries@.take(i as int)),
            keys@ == entry_keys(entries@.take(i as int)),
    {
        let (key, interval) = entries[i];
        let ghost seen = entries@.take(i as int);
        let ghost now = entries@.take(i + 1);
        let ghost before = map@;
        let mut group: Vec<(i64, i64, usize)> = match map.remove(&key) {
            Some(group) => group,
            None => Vec::new(),
        };
        proof {
            if !before.contains_key(key) {
                lemma_no_members(seen, key);
            }
            assert(now.drop_last() =~= seen);
        }
        group.push(interval);
        map.insert(key, group);
        keys.insert(key);
        proof {
            assert forall|k: K| entry_keys(now).contains(k) <==> entry_keys(seen).insert(
                key,
            ).contains(k) by {
                assert(now[i as int].0 == key);
                if entry_keys(now).contains(k) {
                    let j = choose|j: int| 0 <= j < now.len() && (#[trigger] now[j]).0 == k;
                    if j < i {
                        assert(seen[j].0 == k);
                    }
                }
                if entry_keys(seen).contains(k) {
                    let j = choose|j: int| 0 <= j < seen.len() && (#[trigger] seen[j]).0 == k;
                    assert(now[j].0 == k);
                }
            }
            assert(entry_keys(now) =~= entry_keys(seen).insert(key));
            assert(map@.dom() =~= entry_keys(now));
            assert forall|k: K| #[trigger] map@.contains_key(k) implies map@[k]@ == members(
                now,
                k,
            ) by {
                if k != key {
                    assert(before.contains_key(k));
                }
            }
        }
    }
    assert(entries@.take(entries@.len() as int) =~= entries@);
    (map, keys)
}

proof fn lemma_no_members<K>(entries: Seq<(K, (i64, i64, usize))>, key: K)
    requires
        !entry_keys(entries).contains(key),
    ensures
        members(entries, key) == Seq::<(i64, i64, usize)>::empty(),
    decreases entries.len(),
{
    if entries.len() > 0 {
        let rest = entries.drop_last();
        assert(entries[entries.len() - 1].0 != key);
        assert(!entry_keys(rest).contains(key)) by {
            if entry_keys(rest).contains(key) {
                let i = choose|i: int| 0 <= i < rest.len() && (#[trigger] rest[i]).0 == key;
                assert(entries[i].0 == key);
            }
        }
        lemma_no_members(rest, key);
    }
}

/// Every lane belongs to a group, and its number within the group is no larger than
/// its place among all lanes.
pub proof fn lemma_lane_groups<K: Ord>(p: Packing, entries: Seq<(K, (i64, i64, usize))>, base: i64)
    requires
        lists(group_keys(entries), entry_keys(entries)),
    ensures
        forall|i: int|
            0 <= i < all_lanes(p, entries, base).len() ==> entry_keys(entries).contains(
                (#[trigger] all_lanes(p, entries, base)[i]).key,
            ) && (i <= usize::MAX ==> all_lanes(p, entries, base)[i].lane <= i),
{
    assert forall|i: int| 0 <= i < all_lanes(p, entries, base).len() implies entry_keys(entries).contains(
        (#[trigger] all_lanes(p, entries, base)[i]).key,
    ) && (i <= usize::MAX ==> all_lanes(p, entries, base)[i].lane <= i) by {
        let f = |g: int| group_lanes(p, entries, base, g);
        let place = lemma_concat_entry(group_keys(entries).len() as int, f, i);
        let key = group_keys(entries)[place.0];
        assert(group_keys(entries).to_set().contains(key));
    }
}

/// Packs the intervals of every group into lanes and numbers the lanes as tracks.
pub fn plan_lanes<K: Ord + Copy>(p: Packing, entries: &Vec<(K, (i64, i64, usize))>, base: i64) -> (plan: LanePlan<K>)
    requires
        keyed::<K>(),
        distinct_items(entries@),
    ensures
        plan.packs(p, entries@, base),
{
    proof {
        lemma_item_keyed::<K>();
    }
    let (mut map, key_set) = group_entries(entries);
    let keys = ordered_vec(&key_set);
    let ghost all = entries@;
    let _entry_count: usize = entries.len();
    let mut lanes: Vec<Lane<K>> = Vec::new();
    let mut tids: BTreeMap<(K, usize), i64> = BTreeMap::new();
    let mut before: usize = 0;
    for g in 0..keys.len()
        invariant
            keyed::<K>(),
            keyed::<(K, usize)>(),
            all == entries@,
            all.len() <= usize::MAX,
            distinct_items(all),
            keys@ == group_keys(all),
            keys@.no_duplicates(),
            keys@.to_set() == entry_keys(all),
            forall|k: K| #[trigger]
                map@.contains_key(k) <==> entry_keys(all).contains(k) && !keys@.take(g as int).contains(k),
            forall|k: K| #[trigger] map@.contains_key(k) ==> map@[k]@ == members(all, k),
            before == lanes_before(p, all, g as int),
            before <= members_total(all, keys@, g as int),
            lanes@ == concat(g as int, |h: int| group_lanes(p, all, base, h)),
            forall|k: (K, usize)| #[trigger]
                tids@.contains_key(k) <==> keys@.take(g as int).contains(k.0) && has_item(
                    all,
                    k.0,
                    k.1,
                ),
            forall|k: (K, usize)| #[trigger]
                tids@.contains_key(k) ==> tids@[k] == lane_track(p, all, base, k.0, k.1),
    {
        let key = keys[g];
        let ghost seen = keys@.take(g as int);
        let ghost next = keys@.take(g + 1);
        proof {
            lemma_take_set(keys@, g as int);
            assert forall|k: K| next.contains(k) <==> (seen.contains(k) || k == key) by {
                assert(next.contains(k) <==> next.to_set().contains(k));
                assert(seen.contains(k) <==> seen.to_set().contains(k));
            }
            assert(keys@.to_set().contains(key));
            assert(!seen.contains(key)) by {
                if seen.contains(key) {
                    let i = choose|i: int| 0 <= i < seen.len() && seen[i] == key;
                    assert(keys@[i] == keys@[g as int]);
                }
            }
            assert(map@.contains_key(key));
        }
        let mut group: Vec<(i64, i64, usize)> = match map.remove(&key) {
            Some(group) => group,
            None => Vec::new(),
        };
        let ghost listed = members(all, key);
        assert(group@ == listed);
        let (packed, count) = pack_group(p, &mut group);
        let ghost placed = group@;
        proof {
            lemma_members_items(all, key);
            lemma_arranged_items(p, listed);
            lemma_members_total(all, keys@, g as int);
            lemma_members_total(all, keys@, g + 1);
            assert(placed.take(placed.len() as int) =~= placed);
            lemma_interval_lane_bounds(placed, placed.len() as int);
            lemma_laminar_lane_bounds(placed, placed.len() as int);
            assert(count <= listed.len());
        }
        let ghost lanes0 = lanes@;
        for l in 0..count
            invariant
                before + count <= usize::MAX,
                lanes@ == lanes0 + Seq::new(
                    l as nat,
                    |x: int| Lane { key, tid: numbered(base, before + x), lane: x as usize },
                ),
        {
            lanes.push(Lane { key, tid: number_at(base, before + l), lane: l });
            assert(lanes@ =~= lanes0 + Seq::new(
                (l + 1) as nat,
                |x: int| Lane { key, tid: numbered(base, before + x), lane: x as usize },
            ));
        }
        proof {
            assert(lanes@ =~= lanes0 + group_lanes(p, all, base, g as int));
        }
        let ghost tids0 = tids@;
        for i in 0..packed.len()
            invariant
                keyed::<(K, usize)>(),
                before + count <= usize::MAX,
                before == lanes_before(p, all, g as int),
                packed@.len() == placed.len(),
                0 <= g < keys@.len(),
                key == keys@[g as int],
                keys@ == group_keys(all),
                keys@.no_duplicates(),
                placed == placed_members(p, all, key),
                forall|a: int, b: int| 0 <= a < b < placed.len() ==> (#[trigger] placed[a]).2 != (#[trigger] placed[b]).2,
                forall|k: int|
                    0 <= k < packed@.len() ==> {
                        &&& (#[trigger] packed@[k]).0 == placed[k].2
                        &&& packed@[k].1 == lane_at(p, placed, k)
                        &&& packed@[k].1 < count
                    },
                forall|k: (K, usize)| #[trigger]
                    tids@.contains_key(k) <==> tids0.contains_key(k) || (k.0 == key && holds_item(placed.take(i as int), k.1)),
                forall|k: (K, usize)| #[trigger]
                    tids@.contains_key(k) ==> tids@[k] == (if k.0 == key && holds_item(placed.take(i as int), k.1) {
                        lane_track(p, all, base, key, k.1)
                    } else {
                        tids0[k]
                    }),
        {
            let (item, lane) = packed[i];
            let ghost tids1 = tids@;
            tids.insert((key, item), number_at(base, before + lane));
            proof {
                lemma_index_of(keys@, g as int);
                assert(placed[i as int].2 == item);
                let at = place_of(placed, item);
                assert(at == i) by {
                    assert(0 <= at < placed.len() && placed[at].2 == item);
                    if at < i {
                        assert(placed[at].2 != placed[i as int].2);
                    }
                    if at > i {
                        assert(placed[i as int].2 != placed[at].2);
                    }
                }
                let longer = placed.take(i + 1);
                let shorter = placed.take(i as int);
                assert forall|x: usize| #[trigger] holds_item(longer, x) <==> (holds_item(shorter, x) || x == item) by {
                    assert(longer[i as int].2 == item);
                    if holds_item(shorter, x) {
                        let a = choose|a: int| 0 <= a < shorter.len() && (#[trigger] shorter[a]).2 == x;
                        assert(longer[a].2 == x);
                    }
                    if holds_item(longer, x) {
                        let a = choose|a: int| 0 <= a < longer.len() && (#[trigger] longer[a]).2 == x;
                        if a < i {
                            assert(shorter[a].2 == x);
                        }
                    }
                }
            }
        }
        before = before + count;
        proof {
            assert(placed.take(packed@.len() as int) =~= placed);
        }
    }
    proof {
        assert(keys@.take(keys@.len() as int) =~= keys@);
        assert forall|k: (K, usize)| has_item(all, k.0, k.1) implies keys@.contains(
            k.0,
        ) by {
            let key = k.0;
            let i = choose|i: int| 0 <= i < all.len() && (#[trigger] all[i]).0 == key && all[i].1.2 == k.1;
            assert(all[i].0 == key);
            assert(keys@.to_set().contains(key));
        }
    }
    LanePlan { groups: keys, lanes, tids }
}

/// The intervals of a group are arranged by start, and none is lost.
proof fn lemma_arranged(p: Packing, s: Seq<(i64, i64, usize)>)
    ensures
        by_start(arranged(p, s)),
        forall|e: (i64, i64, usize)| #[trigger] s.contains(e) ==> arranged(p, s).contains(e),
{
    lemma_integers_keyed();
    lemma_triple_keyed::<i64, i64, usize>();
    let a = arranged(p, s);
    match p {
        Packing::Disjoint => {
            lemma_sorted_same_items(s);
            lemma_interval_order::<usize>();
        },
        Packing::Nested => {
            lemma_outermost_first(s);
        },
    }
    s.to_multiset_ensures();
    a.to_multiset_ensures();
    assert forall|e: (i64, i64, usize)| #[trigger] s.contains(e) implies a.contains(e) by {
        assert(s.to_multiset().count(e) > 0);
    }
}

/// A group that occurs is among the groups.
pub proof fn lemma_group_listed<K: Ord>(entries: Seq<(K, (i64, i64, usize))>)
    requires
        keyed::<K>(),
    ensures
        lists(group_keys(entries), entry_keys(entries)),
        group_keys(entries).no_duplicates(),
        forall|i: int| 0 <= i < entries.len() ==> group_keys(entries).contains((#[trigger] entries[i]).0),
{
    let keys = entries.map_values(|e: (K, (i64, i64, usize))| e.0);
    assert(keys.to_set() =~= entry_keys(entries)) by {
        assert forall|k: K| keys.to_set().contains(k) <==> entry_keys(entries).contains(k) by {
            if keys.to_set().contains(k) {
                let i = choose|i: int| 0 <= i < keys.len() && keys[i] == k;
                assert(entries[i].0 == k);
            }
            if entry_keys(entries).contains(k) {
                let i = choose|i: int| 0 <= i < entries.len() && (#[trigger] entries[i]).0 == k;
                assert(keys[i] == k);
            }
        }
    }
    vstd::seq_lib::seq_to_set_is_finite(keys);
    lemma_ordered_lists(entry_keys(entries));
    assert forall|i: int| 0 <= i < entries.len() implies group_keys(entries).contains((#[trigger] entries[i]).0) by {
        assert(group_keys(entries).to_set().contains(entries[i].0));
    }
}

/// The place of an entry in its arranged group.
proof fn lemma_entry_placed<K>(p: Packing, entries: Seq<(K, (i64, i64, usize))>, i: int) -> (at: int)
    requires
        distinct_items(entries),
        0 <= i < entries.len(),
    ensures
        0 <= at < placed_members(p, entries, entries[i].0).len(),
        at == place_of(placed_members(p, entries, entries[i].0), entries[i].1.2),
        placed_members(p, entries, entries[i].0)[at] == entries[i].1,
{
    let key = entries[i].0;
    let item = entries[i].1.2;
    let listed = members(entries, key);
    let placed = placed_members(p, entries, key);
    lemma_members_items(entries, key);
    lemma_arranged_items(p, listed);
    lemma_arranged(p, listed);
    lemma_members_hold(entries, i);
    assert(placed.contains(entries[i].1));
    let at = choose|a: int| 0 <= a < placed.len() && placed[a] == entries[i].1;
    let other = place_of(placed, item);
    assert(placed[at].2 == item);
    assert(0 <= other < placed.len() && placed[other].2 == item);
    if other < at {
        assert(placed[other].2 != placed[at].2);
    }
    if at < other {
        assert(placed[at].2 != placed[other].2);
    }
    at
}

proof fn lemma_members_hold<K>(entries: Seq<(K, (i64, i64, usize))>, i: int)
    requires
        0 <= i < entries.len(),
    ensures
        members(entries, entries[i].0).contains(entries[i].1),
    decreases entries.len(),
{
    let key = entries[i].0;
    let m = members(entries, key);
    let rest = entries.drop_last();
    if i == entries.len() - 1 {
        assert(m[m.len() - 1] == entries[i].1);
    } else {
        lemma_members_hold(rest, i);
        assert(rest[i] == entries[i]);
        let q = members(rest, key);
        let a = choose|a: int| 0 <= a < q.len() && q[a] == entries[i].1;
        assert(m[a] == q[a]);
    }
}

proof fn lemma_lanes_grow<K: Ord>(p: Packing, entries: Seq<(K, (i64, i64, usize))>, g: int, h: int)
    requires
        0 <= g <= h,
    ensures
        lanes_before(p, entries, g) <= lanes_before(p, entries, h),
    decreases h,
{
    if g < h {
        lemma_lanes_grow(p, entries, g, h - 1);
    }
}

proof fn lemma_lanes_fit<K: Ord>(p: Packing, entries: Seq<(K, (i64, i64, usize))>, g: int)
    requires
        keyed::<K>(),
        0 <= g <= group_keys(entries).len(),
    ensures
        lanes_before(p, entries, g) <= entries.len(),
{
    lemma_group_listed(entries);
    lemma_lanes_at_most_members(p, entries, g);
    lemma_members_total(entries, group_keys(entries), g);
}

proof fn lemma_lanes_at_most_members<K: Ord>(p: Packing, entries: Seq<(K, (i64, i64, usize))>, g: int)
    requires
        0 <= g <= group_keys(entries).len(),
    ensures
        lanes_before(p, entries, g) <= members_total(entries, group_keys(entries), g),
    decreases g,
{
    if g > 0 {
        lemma_lanes_at_most_members(p, entries, g - 1);
        let listed = members(entries, group_keys(entries)[g - 1]);
        lemma_arranged_items(p, listed);
        lemma_lane_total(p, arranged(p, listed));
    }
}

proof fn lemma_lane_total(p: Packing, placed: Seq<(i64, i64, usize)>)
    ensures
        lane_total(p, placed) <= placed.len(),
        forall|i: int| 0 <= i < placed.len() ==> 0 <= #[trigger] lane_at(p, placed, i) < lane_total(p, placed),
{
    assert(placed.take(placed.len() as int) =~= placed);
    lemma_interval_lane_bounds(placed, placed.len() as int);
    lemma_laminar_lane_bounds(placed, placed.len() as int);
}

/// Where an entry's track stands among all lanes.
proof fn lemma_entry_lane<K: Ord>(p: Packing, entries: Seq<(K, (i64, i64, usize))>, i: int) -> (lane: (int, int))
    requires
        keyed::<K>(),
        distinct_items(entries),
        0 <= i < entries.len(),
    ensures
        0 <= lane.0 < group_keys(entries).len(),
        group_keys(entries)[lane.0] == entries[i].0,
        group_keys(entries).index_of(entries[i].0) == lane.0,
        lane.1 == lane_at(
            p,
            placed_members(p, entries, entries[i].0),
            place_of(placed_members(p, entries, entries[i].0), entries[i].1.2),
        ),
        lanes_before(p, entries, lane.0) <= lanes_before(p, entries, lane.0) + lane.1 < lanes_before(
            p,
            entries,
            lane.0 + 1,
        ) <= entries.len(),
{
    lemma_group_listed(entries);
    let keys = group_keys(entries);
    let g = choose|g: int| 0 <= g < keys.len() && keys[g] == entries[i].0;
    lemma_index_of(keys, g);
    let at = lemma_entry_placed(p, entries, i);
    let placed = placed_members(p, entries, entries[i].0);
    lemma_lane_total(p, placed);
    lemma_lanes_fit(p, entries, g + 1);
    (g, lane_at(p, placed, at))
}

/// The track of an entry is among the lanes of its group.
pub proof fn lemma_track_listed<K: Ord>(p: Packing, entries: Seq<(K, (i64, i64, usize))>, base: i64, i: int) -> (x: int)
    requires
        keyed::<K>(),
        distinct_items(entries),
        0 <= i < entries.len(),
    ensures
        0 <= x < all_lanes(p, entries, base).len(),
        all_lanes(p, entries, base)[x].key == entries[i].0,
        all_lanes(p, entries, base)[x].tid == lane_track(p, entries, base, entries[i].0, entries[i].1.2),
{
    let lane = lemma_entry_lane(p, entries, i);
    lemma_concat_has(
        group_keys(entries).len() as int,
        |g: int| group_lanes(p, entries, base, g),
        lane.0,
        lane.1,
    )
}

/// Two intervals do not overlap.
pub open spec fn apart(a: (i64, i64, usize), b: (i64, i64, usize)) -> bool {
    a.1 <= b.0 || b.1 <= a.0
}

/// One interval encloses the other.
pub open spec fn nested(a: (i64, i64, usize), b: (i64, i64, usize)) -> bool {
    (a.0 <= b.0 && b.1 <= a.1) || (b.0 <= a.0 && a.1 <= b.1)
}

/// Intervals on one track belong to one group, and do not overlap, or, where the
/// packing allows it, one encloses the other.
pub proof fn lemma_tracks_are_overlap_safe<K: Ord>(
    p: Packing,
    entries: Seq<(K, (i64, i64, usize))>,
    base: i64,
    i: int,
    j: int,
)
    requires
        keyed::<K>(),
        distinct_items(entries),
        base + entries.len() <= i64::MAX,
        0 <= i < entries.len(),
        0 <= j < entries.len(),
        i != j,
        lane_track(p, entries, base, entries[i].0, entries[i].1.2) == lane_track(
            p,
            entries,
            base,
            entries[j].0,
            entries[j].1.2,
        ),
    ensures
        entries[i].0 == entries[j].0,
        p == Packing::Disjoint ==> apart(entries[i].1, entries[j].1),
        p == Packing::Nested ==> apart(entries[i].1, entries[j].1) || nested(entries[i].1, entries[j].1),
{
    let a = lemma_entry_lane(p, entries, i);
    let b = lemma_entry_lane(p, entries, j);
    if a.0 < b.0 {
        lemma_lanes_grow(p, entries, a.0 + 1, b.0);
    }
    if b.0 < a.0 {
        lemma_lanes_grow(p, entries, b.0 + 1, a.0);
    }
    assert(a.0 == b.0 && a.1 == b.1);
    let key = entries[i].0;
    let placed = placed_members(p, entries, key);
    let x = lemma_entry_placed(p, entries, i);
    let y = lemma_entry_placed(p, entries, j);
    lemma_arranged(p, members(entries, key));
    assert(entries[i].1.2 != entries[j].1.2) by {
        if i < j {
            assert(entries[i].0 == entries[j].0);
        } else {
            assert(entries[j].0 == entries[i].0);
        }
    }
    match p {
        Packing::Disjoint => {
            if x < y {
                lemma_interval_lanes_do_not_overlap(placed, x, y);
            } else {
                lemma_interval_lanes_do_not_overlap(placed, y, x);
            }
        },
        Packing::Nested => {
            if x < y {
                lemma_laminar_lanes_nest(placed, x, y);
            } else {
                lemma_laminar_lanes_nest(placed, y, x);
            }
        },
    }
}

} // verus!
