//! Total orders, increasing enumerations of sets, and sorting.
use vstd::prelude::*;
use vstd::laws_cmp::{group_laws_cmp, obeys_cmp, obeys_cmp_ord, obeys_cmp_partial_ord, obeys_partial_cmp_spec_properties};
use vstd::laws_eq::{group_laws_eq, obeys_concrete_eq, obeys_eq_spec_properties};
use vstd::std_specs::cmp::{OrdSpec, PartialEqSpec, PartialOrdSpec};
use vstd::std_specs::btree::increasing_seq;
use vstd::std_specs::iter::IteratorSpec;
use vstd::seq_lib::group_to_multiset_ensures;
use std::cmp::Ordering;
use std::collections::BTreeSet;

verus! {

/// `K` keeps the laws that `Ord` documents.
pub open spec fn lawful<K: Ord>() -> bool {
    obeys_cmp::<K>()
}

/// `K` keeps the laws of `Ord`, and values that compare equal are the same value.
pub open spec fn keyed<K: Ord>() -> bool {
    obeys_cmp::<K>() && obeys_concrete_eq::<K>()
}

/// `a` sorts strictly before `b`.
pub open spec fn precedes<K: Ord>(a: K, b: K) -> bool {
    a.cmp_spec(&b) is Less
}

/// `a` sorts before `b` or compares equal to it.
pub open spec fn not_after<K: Ord>(a: K, b: K) -> bool {
    !precedes(b, a)
}

/// Strictly increasing.
pub open spec fn increasing<K: Ord>(s: Seq<K>) -> bool {
    forall|i: int, j: int| 0 <= i < j < s.len() ==> precedes(#[trigger] s[i], #[trigger] s[j])
}

/// Increasing, equal neighbours allowed.
pub open spec fn non_decreasing<K: Ord>(s: Seq<K>) -> bool {
    forall|i: int, j: int| 0 <= i < j < s.len() ==> not_after(#[trigger] s[i], #[trigger] s[j])
}

/// `q` lists the elements of `s` once each, in increasing order.
pub open spec fn lists<K: Ord>(q: Seq<K>, s: Set<K>) -> bool {
    increasing(q) && q.to_set() == s
}

/// The elements of a finite set in increasing order.
pub open spec fn ordered<K: Ord>(s: Set<K>) -> Seq<K> {
    choose|q: Seq<K>| lists(q, s)
}

/// The items of `s` in sorted order.
pub open spec fn sorted<K: Ord>(s: Seq<K>) -> Seq<K> {
    s.sort_by(|a: K, b: K| not_after(a, b))
}

pub proof fn lemma_integers_keyed()
    ensures
        keyed::<i64>(),
        keyed::<i128>(),
        keyed::<usize>(),
{
    broadcast use group_laws_cmp;
    broadcast use group_laws_eq;
}

pub proof fn lemma_pair_keyed()
    ensures
        keyed::<(i64, i64)>(),
{
    broadcast use group_laws_cmp;
    broadcast use group_laws_eq;
}

pub proof fn lemma_quad_keyed()
    ensures
        keyed::<(i64, i64, i64, i64)>(),
{
    broadcast use group_laws_cmp;
    broadcast use group_laws_eq;
}

pub proof fn lemma_moment_keyed()
    ensures
        keyed::<(i64, usize)>(),
{
    broadcast use group_laws_cmp;
    broadcast use group_laws_eq;
}

pub proof fn lemma_boundary_keyed()
    ensures
        keyed::<(i64, i64, usize)>(),
{
    broadcast use group_laws_cmp;
    broadcast use group_laws_eq;
}

pub proof fn lemma_item_keyed<K: Ord>()
    requires
        keyed::<K>(),
    ensures
        keyed::<(K, usize)>(),
{
    broadcast use group_laws_cmp;
    broadcast use group_laws_eq;
}

/// Tuples of lawful types are lawful.
pub proof fn lemma_triple_lawful<A: Ord, B: Ord, C: Ord>()
    requires
        lawful::<A>(),
        lawful::<B>(),
        lawful::<C>(),
    ensures
        lawful::<(A, B, C)>(),
{
    broadcast use group_laws_cmp;
}

pub proof fn lemma_triple_keyed<A: Ord, B: Ord, C: Ord>()
    requires
        keyed::<A>(),
        keyed::<B>(),
        keyed::<C>(),
    ensures
        keyed::<(A, B, C)>(),
{
    broadcast use group_laws_cmp;
    broadcast use group_laws_eq;
}

pub proof fn lemma_order_laws<K: Ord>()
    requires
        lawful::<K>(),
    ensures
        forall|a: K, b: K| #[trigger] precedes(a, b) ==> !precedes(b, a),
        forall|a: K, b: K, c: K|
            #[trigger] precedes(a, b) && #[trigger] precedes(b, c) ==> precedes(a, c),
        forall|a: K, b: K, c: K|
            #[trigger] not_after(a, b) && #[trigger] not_after(b, c) ==> not_after(a, c),
{
    reveal(obeys_eq_spec_properties);
    reveal(obeys_partial_cmp_spec_properties);
    reveal(obeys_cmp_partial_ord);
    reveal(obeys_cmp_ord);
    assert forall|a: K, b: K, c: K|
        #[trigger] precedes(a, b) && #[trigger] precedes(b, c) implies precedes(a, c) by {
        assert(a.partial_cmp_spec(&b) == Some(a.cmp_spec(&b)));
        assert(b.partial_cmp_spec(&c) == Some(b.cmp_spec(&c)));
        assert(a.partial_cmp_spec(&c) == Some(a.cmp_spec(&c)));
    }
    assert forall|a: K, b: K| #[trigger] precedes(a, b) implies !precedes(b, a) by {
        assert(a.partial_cmp_spec(&b) == Some(a.cmp_spec(&b)));
        assert(b.partial_cmp_spec(&a) == Some(b.cmp_spec(&a)));
    }
    assert forall|a: K, b: K, c: K|
        #[trigger] not_after(a, b) && #[trigger] not_after(b, c) implies not_after(a, c) by {
        assert(a.partial_cmp_spec(&b) == Some(a.cmp_spec(&b)));
        assert(b.partial_cmp_spec(&a) == Some(b.cmp_spec(&a)));
        assert(b.partial_cmp_spec(&c) == Some(b.cmp_spec(&c)));
        assert(c.partial_cmp_spec(&b) == Some(c.cmp_spec(&b)));
        assert(c.partial_cmp_spec(&a) == Some(c.cmp_spec(&a)));
        assert(a.partial_cmp_spec(&c) == Some(a.cmp_spec(&c)));
        if precedes(c, a) {
            if a.cmp_spec(&b) is Equal {
                assert(a.eq_spec(&b));
                if b.cmp_spec(&c) is Equal {
                    assert(b.eq_spec(&c));
                    assert(a.eq_spec(&c));
                    assert(c.eq_spec(&a));
                } else {
                    assert(precedes(b, c));
                    assert(precedes(b, a));
                }
            } else {
                assert(precedes(a, b));
                assert(precedes(c, b));
            }
        }
    }
}

pub proof fn lemma_trichotomy<K: Ord>()
    requires
        keyed::<K>(),
    ensures
        forall|a: K, b: K| #[trigger] not_after(a, b) && not_after(b, a) ==> a == b,
        forall|a: K| !#[trigger] precedes(a, a),
{
    reveal(obeys_concrete_eq);
    reveal(obeys_eq_spec_properties);
    reveal(obeys_partial_cmp_spec_properties);
    reveal(obeys_cmp_partial_ord);
    reveal(obeys_cmp_ord);
    lemma_order_laws::<K>();
    assert forall|a: K, b: K| #[trigger] not_after(a, b) && not_after(b, a) implies a == b by {
        assert(a.partial_cmp_spec(&b) == Some(a.cmp_spec(&b)));
        assert(b.partial_cmp_spec(&a) == Some(b.cmp_spec(&a)));
        assert(a.eq_spec(&b));
    }
}

/// An increasing sequence is fixed by the set of its elements.
pub proof fn lemma_lists_unique<K: Ord>(p: Seq<K>, q: Seq<K>, s: Set<K>)
    requires
        keyed::<K>(),
        lists(p, s),
        lists(q, s),
    ensures
        p == q,
    decreases p.len(),
{
    lemma_order_laws::<K>();
    lemma_trichotomy::<K>();
    if p.len() == 0 {
        if q.len() > 0 {
            assert(q.to_set().contains(q[0]));
            assert(p.to_set().contains(q[0]));
        }
        assert(p =~= q);
    } else {
        assert(p.to_set().contains(p[0]));
        assert(q.to_set().contains(p[0]));
        assert(q.len() > 0);
        assert(q.to_set().contains(q[0]));
        assert(p.to_set().contains(q[0]));
        let i = choose|i: int| 0 <= i < p.len() && p[i] == q[0];
        let j = choose|j: int| 0 <= j < q.len() && q[j] == p[0];
        assert(p[0] == q[0]) by {
            if i > 0 {
                assert(precedes(p[0], p[i]));
            }
            if j > 0 {
                assert(precedes(q[0], q[j]));
            }
        }
        let p1 = p.drop_first();
        let q1 = q.drop_first();
        assert(increasing(p1));
        assert(increasing(q1));
        assert(p1.to_set() =~= s.remove(p[0])) by {
            lemma_tail_set(p);
        }
        assert(q1.to_set() =~= s.remove(p[0])) by {
            lemma_tail_set(q);
        }
        lemma_lists_unique(p1, q1, s.remove(p[0]));
        assert(p =~= seq![p[0]] + p1);
        assert(q =~= seq![q[0]] + q1);
    }
}

proof fn lemma_tail_set<K: Ord>(p: Seq<K>)
    requires
        keyed::<K>(),
        increasing(p),
        p.len() > 0,
    ensures
        p.drop_first().to_set() == p.to_set().remove(p[0]),
{
    lemma_trichotomy::<K>();
    let p1 = p.drop_first();
    assert forall|x: K| p1.to_set().contains(x) implies p.to_set().remove(p[0]).contains(x) by {
        let i = choose|i: int| 0 <= i < p1.len() && p1[i] == x;
        assert(p[i + 1] == x);
        assert(precedes(p[0], p[i + 1]));
    }
    assert forall|x: K| p.to_set().remove(p[0]).contains(x) implies p1.to_set().contains(x) by {
        let i = choose|i: int| 0 <= i < p.len() && p[i] == x;
        assert(p1[i - 1] == x);
    }
    assert(p1.to_set() =~= p.to_set().remove(p[0]));
}

pub proof fn lemma_lists_is_ordered<K: Ord>(q: Seq<K>, s: Set<K>)
    requires
        keyed::<K>(),
        lists(q, s),
    ensures
        ordered(s) == q,
        q.no_duplicates(),
{
    lemma_trichotomy::<K>();
    lemma_lists_unique(ordered(s), q, s);
    assert forall|i: int, j: int| 0 <= i < q.len() && 0 <= j < q.len() && i != j implies q[i] != q[j] by {
        if i < j {
            assert(precedes(q[i], q[j]));
        } else {
            assert(precedes(q[j], q[i]));
        }
    }
}

/// Every finite set can be listed in increasing order.
pub proof fn lemma_ordered_lists<K: Ord>(s: Set<K>)
    requires
        keyed::<K>(),
        s.finite(),
    ensures
        lists(ordered(s), s),
        ordered(s).no_duplicates(),
        ordered(s).len() == s.len(),
{
    lemma_order_laws::<K>();
    lemma_trichotomy::<K>();
    let any = s.to_seq();
    lemma_any_order(s);
    s.lemma_to_seq_to_set_id();
    any.lemma_no_dup_set_cardinality();
    let q = sorted(any);
    lemma_sorted_same_items(any);
    any.to_multiset_ensures();
    q.to_multiset_ensures();
    any.lemma_multiset_has_no_duplicates();
    q.lemma_multiset_has_no_duplicates_conv();
    assert forall|k: K| q.to_set().contains(k) <==> s.contains(k) by {
        assert(q.contains(k) <==> q.to_multiset().count(k) > 0);
        assert(any.contains(k) <==> any.to_multiset().count(k) > 0);
        assert(any.to_set().contains(k) <==> s.contains(k));
    }
    assert(q.to_set() =~= s);
    assert forall|i: int, j: int| 0 <= i < j < q.len() implies precedes(#[trigger] q[i], #[trigger] q[j]) by {
        assert(not_after(q[i], q[j]));
        if !precedes(q[i], q[j]) {
            assert(not_after(q[j], q[i]));
        }
    }
    assert(lists(q, s));
    lemma_lists_is_ordered(q, s);
    q.unique_seq_to_set();
}

proof fn lemma_any_order<K>(s: Set<K>)
    requires
        s.finite(),
    ensures
        s.to_seq().len() == s.len(),
    decreases s.len(),
{
    if s.len() > 0 {
        lemma_any_order(s.remove(s.choose()));
    }
}

pub proof fn lemma_sorted_is<K: Ord>(q: Seq<K>, s: Seq<K>)
    requires
        keyed::<K>(),
        non_decreasing(q),
        q.to_multiset() == s.to_multiset(),
    ensures
        sorted(s) == q,
{
    lemma_order_laws::<K>();
    lemma_trichotomy::<K>();
    let leq = |a: K, b: K| not_after(a, b);
    assert(vstd::relations::total_ordering(leq)) by {
        assert(vstd::relations::reflexive(leq));
        assert(vstd::relations::antisymmetric(leq));
        assert(vstd::relations::transitive(leq));
        assert(vstd::relations::strongly_connected(leq));
    }
    s.lemma_sort_by_ensures(leq);
    assert(vstd::relations::sorted_by(q, leq));
    vstd::seq_lib::lemma_sorted_unique(s.sort_by(leq), q, leq);
}

/// Sorting keeps every item.
pub proof fn lemma_sorted_same_items<K: Ord>(s: Seq<K>)
    requires
        keyed::<K>(),
    ensures
        sorted(s).to_multiset() == s.to_multiset(),
        non_decreasing(sorted(s)),
{
    lemma_order_laws::<K>();
    lemma_trichotomy::<K>();
    let leq = |a: K, b: K| not_after(a, b);
    assert(vstd::relations::total_ordering(leq)) by {
        assert(vstd::relations::reflexive(leq));
        assert(vstd::relations::antisymmetric(leq));
        assert(vstd::relations::transitive(leq));
        assert(vstd::relations::strongly_connected(leq));
    }
    s.lemma_sort_by_ensures(leq);
    assert forall|i: int, j: int| 0 <= i < j < sorted(s).len() implies not_after(
        #[trigger] sorted(s)[i],
        #[trigger] sorted(s)[j],
    ) by {
        assert(leq(sorted(s)[i], sorted(s)[j]));
    }
}

pub fn comes_before<K: Ord>(a: &K, b: &K) -> (r: bool)
    ensures
        lawful::<K>() ==> r == precedes(*a, *b),
{
    proof {
        reveal(obeys_cmp_ord);
    }
    match a.cmp(b) {
        Ordering::Less => true,
        _ => false,
    }
}

/// The elements of a set in increasing order.
pub fn ordered_vec<K: Ord + Copy>(s: &BTreeSet<K>) -> (v: Vec<K>)
    requires
        keyed::<K>(),
    ensures
        lists(v@, s@),
        v@ == ordered(s@),
        v@.no_duplicates(),
{
    let mut v: Vec<K> = Vec::new();
    for c in it: s.iter()
        invariant
            it.seq() == s.iter().remaining(),
            v@ == it.seq().unref().take(it.index()),
            obeys_cmp::<K>(),
            increasing(v@),
    {
        v.push(*c);
        proof {
            broadcast use group_laws_cmp;
            assert(obeys_cmp::<&K>());
            assert(increasing_seq(it.seq()));
            assert forall|i: int| 0 <= i < it.index() implies precedes(#[trigger] it.seq().unref()[i], *c) by {
                assert(OrdSpec::cmp_spec(&it.seq()[i], &it.seq()[it.index()]) is Less);
            }
        }
    }
    proof {
        assert(v@ =~= s.iter().remaining().unref());
        lemma_lists_is_ordered(v@, s@);
    }
    v
}

fn merge<T: Ord + Copy>(a: &Vec<T>, b: &Vec<T>) -> (out: Vec<T>)
    requires
        lawful::<T>() ==> non_decreasing(a@),
        lawful::<T>() ==> non_decreasing(b@),
    ensures
        lawful::<T>() ==> non_decreasing(out@),
        out@.to_multiset() == a@.to_multiset().add(b@.to_multiset()),
{
    let mut out: Vec<T> = Vec::new();
    let mut i: usize = 0;
    let mut j: usize = 0;
    proof {
        vstd::seq_lib::lemma_multiset_commutative(a@.take(0), b@.take(0));
        assert(out@ =~= a@.take(0) + b@.take(0));
    }
    while i < a.len() || j < b.len()
        invariant
            i <= a@.len(),
            j <= b@.len(),
            lawful::<T>() ==> non_decreasing(a@),
            lawful::<T>() ==> non_decreasing(b@),
            lawful::<T>() ==> non_decreasing(out@),
            out@.to_multiset() == a@.take(at(i)).to_multiset().add(b@.take(at(j)).to_multiset()),
            lawful::<T>() ==> forall|p: int, q: int|
                0 <= p < out@.len() && i <= q < a@.len() ==> not_after(#[trigger] out@[p], #[trigger] a@[q]),
            lawful::<T>() ==> forall|p: int, q: int|
                0 <= p < out@.len() && j <= q < b@.len() ==> not_after(#[trigger] out@[p], #[trigger] b@[q]),
        decreases a@.len() - i + (b@.len() - j),
    {
        proof {
            if lawful::<T>() {
                lemma_order_laws::<T>();
            }
            broadcast use group_to_multiset_ensures;
            if i < a@.len() {
                assert(a@.take(i + 1) =~= a@.take(at(i)).push(a@[at(i)]));
            }
            if j < b@.len() {
                assert(b@.take(j + 1) =~= b@.take(at(j)).push(b@[at(j)]));
            }
        }
        if j >= b.len() || (i < a.len() && !comes_before(&b[j], &a[i])) {
            proof {
                assert(lawful::<T>() && j < b@.len() ==> not_after(a@[at(i)], b@[at(j)]));
            }
            out.push(a[i]);
            i = i + 1;
        } else {
            proof {
                assert(lawful::<T>() && i < a@.len() ==> not_after(b@[at(j)], a@[at(i)]));
            }
            out.push(b[j]);
            j = j + 1;
        }
    }
    proof {
        assert(a@.take(at(i)) =~= a@);
        assert(b@.take(at(j)) =~= b@);
    }
    out
}

spec fn at(i: usize) -> int {
    i as int
}

/// Sorts into non-decreasing order, keeping every item.
pub fn sort_items<T: Ord + Copy>(v: &Vec<T>) -> (out: Vec<T>)
    ensures
        lawful::<T>() ==> non_decreasing(out@),
        out@.to_multiset() == v@.to_multiset(),
        out@.len() == v@.len(),
    decreases v@.len(),
{
    let n: usize = v.len();
    let mut out: Vec<T> = Vec::new();
    if n <= 1 {
        if n == 1 {
            out.push(v[0]);
        }
        assert(out@ =~= v@);
        return out;
    }
    let half: usize = n / 2;
    let mut left: Vec<T> = Vec::new();
    let mut right: Vec<T> = Vec::new();
    for i in 0..half
        invariant
            half <= v@.len(),
            left@ == v@.take(at(i)),
    {
        left.push(v[i]);
        assert(v@.take(at(i)).push(v@[at(i)]) =~= v@.take(i + 1));
    }
    for i in half..n
        invariant
            half <= n == v@.len(),
            right@ == v@.subrange(at(half), at(i)),
    {
        right.push(v[i]);
        assert(v@.subrange(at(half), at(i)).push(v@[at(i)]) =~= v@.subrange(at(half), i + 1));
    }
    let l = sort_items(&left);
    let r = sort_items(&right);
    let out = merge(&l, &r);
    proof {
        assert(v@ =~= left@ + right@);
        vstd::seq_lib::lemma_multiset_commutative(left@, right@);
        out@.to_multiset_ensures();
        v@.to_multiset_ensures();
    }
    out
}

} // verus!
