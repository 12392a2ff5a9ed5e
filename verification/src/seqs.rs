//! Sequences made block by block, and counting in sequences.
use vstd::prelude::*;

verus! {

/// The blocks `f(0)`, `f(1)`, .. `f(n - 1)` one after another.
pub open spec fn concat<T>(n: int, f: spec_fn(int) -> Seq<T>) -> Seq<T>
    decreases n,
{
    if n <= 0 {
        Seq::empty()
    } else {
        concat(n - 1, f) + f(n - 1)
    }
}

/// How many of the numbers below `n` satisfy `p`.
pub open spec fn count_where(n: int, p: spec_fn(int) -> bool) -> nat
    decreases n,
{
    if n <= 0 {
        0
    } else {
        count_where(n - 1, p) + (if p(n - 1) {
            1nat
        } else {
            0nat
        })
    }
}

/// How often `x` occurs in `s`.
pub open spec fn occurrences<T>(s: Seq<T>, x: T) -> nat
    decreases s.len(),
{
    if s.len() == 0 {
        0
    } else {
        occurrences(s.drop_last(), x) + (if s.last() == x {
            1nat
        } else {
            0nat
        })
    }
}

/// The positions at which `x` occurs in `s`, in increasing order.
pub open spec fn positions<T>(s: Seq<T>, x: T) -> Seq<int>
    decreases s.len(),
{
    if s.len() == 0 {
        Seq::empty()
    } else if s.last() == x {
        positions(s.drop_last(), x).push(s.len() - 1)
    } else {
        positions(s.drop_last(), x)
    }
}

pub proof fn lemma_count_bound(n: int, p: spec_fn(int) -> bool)
    ensures
        n >= 0 ==> count_where(n, p) <= n,
        n <= 0 ==> count_where(n, p) == 0,
    decreases n,
{
    if n > 0 {
        lemma_count_bound(n - 1, p);
    }
}

pub proof fn lemma_occurrences_bound<T>(s: Seq<T>, x: T)
    ensures
        occurrences(s, x) <= s.len(),
        occurrences(s, x) > 0 <==> s.contains(x),
    decreases s.len(),
{
    if s.len() > 0 {
        lemma_occurrences_bound(s.drop_last(), x);
        if s.contains(x) && s.last() != x {
            let i = choose|i: int| 0 <= i < s.len() && s[i] == x;
            assert(s.drop_last()[i] == x);
        }
        if s.last() == x {
            assert(s[s.len() - 1] == x);
        }
        if s.drop_last().contains(x) {
            let i = choose|i: int| 0 <= i < s.drop_last().len() && s.drop_last()[i] == x;
            assert(s[i] == x);
        }
    }
}

pub proof fn lemma_positions<T>(s: Seq<T>, x: T)
    ensures
        forall|k: int|
            0 <= k < positions(s, x).len() ==> 0 <= #[trigger] positions(s, x)[k] < s.len() && s[positions(
                s,
                x,
            )[k]] == x,
        forall|k: int, l: int|
            0 <= k < l < positions(s, x).len() ==> #[trigger] positions(s, x)[k] < #[trigger] positions(s, x)[l],
        forall|i: int| 0 <= i < s.len() && #[trigger] s[i] == x ==> positions(s, x).contains(i),
        positions(s, x).len() > 0 <==> s.contains(x),
    decreases s.len(),
{
    let p = positions(s, x);
    if s.len() > 0 {
        let rest = s.drop_last();
        lemma_positions(rest, x);
        let q = positions(rest, x);
        assert forall|k: int| 0 <= k < p.len() implies 0 <= #[trigger] p[k] < s.len() && s[p[k]] == x by {
            if k < q.len() {
                assert(p[k] == q[k]);
                assert(rest[q[k]] == x);
            }
        }
        assert forall|k: int, l: int| 0 <= k < l < p.len() implies #[trigger] p[k] < #[trigger] p[l] by {
            assert(p[k] == q[k]);
            if l < q.len() {
                assert(p[l] == q[l]);
            }
        }
        assert forall|i: int| 0 <= i < s.len() && #[trigger] s[i] == x implies p.contains(i) by {
            if i < rest.len() {
                assert(rest[i] == x);
                let k = choose|k: int| 0 <= k < q.len() && q[k] == i;
                assert(p[k] == i);
            } else {
                assert(p[p.len() - 1] == i);
            }
        }
        if p.len() > 0 {
            assert(s[p[0]] == x);
        }
    }
}

/// Where an entry of a concatenation comes from.
pub proof fn lemma_concat_entry<T>(n: int, f: spec_fn(int) -> Seq<T>, i: int) -> (place: (int, int))
    requires
        0 <= i < concat(n, f).len(),
    ensures
        0 <= place.0 < n,
        0 <= place.1 < f(place.0).len(),
        concat(n, f)[i] == f(place.0)[place.1],
        i == concat(place.0, f).len() + place.1,
    decreases n,
{
    let before = concat(n - 1, f);
    if i < before.len() {
        lemma_concat_entry(n - 1, f, i)
    } else {
        (n - 1, i - before.len())
    }
}

/// Every entry of a block is in the concatenation.
pub proof fn lemma_concat_has<T>(n: int, f: spec_fn(int) -> Seq<T>, b: int, j: int) -> (i: int)
    requires
        0 <= b < n,
        0 <= j < f(b).len(),
    ensures
        0 <= i < concat(n, f).len(),
        concat(n, f)[i] == f(b)[j],
    decreases n,
{
    let before = concat(n - 1, f);
    if b == n - 1 {
        before.len() + j
    } else {
        lemma_concat_has(n - 1, f, b, j)
    }
}

/// The items of `s` that satisfy `p`, in order.
pub open spec fn picked<T>(s: Seq<T>, p: spec_fn(T) -> bool) -> Seq<T>
    decreases s.len(),
{
    if s.len() == 0 {
        Seq::empty()
    } else if p(s.last()) {
        picked(s.drop_last(), p).push(s.last())
    } else {
        picked(s.drop_last(), p)
    }
}

pub proof fn lemma_picked_add<T>(a: Seq<T>, b: Seq<T>, p: spec_fn(T) -> bool)
    ensures
        picked(a + b, p) == picked(a, p) + picked(b, p),
    decreases b.len(),
{
    if b.len() == 0 {
        assert(a + b =~= a);
        assert(picked(a, p) + picked(b, p) =~= picked(a, p));
    } else {
        lemma_picked_add(a, b.drop_last(), p);
        assert((a + b).drop_last() =~= a + b.drop_last());
        assert((a + b).last() == b.last());
        assert(picked(a + b, p) =~= picked(a, p) + picked(b, p));
    }
}

pub proof fn lemma_picked_one<T>(x: T, p: spec_fn(T) -> bool)
    ensures
        picked(seq![x], p) == (if p(x) {
            seq![x]
        } else {
            Seq::empty()
        }),
{
    assert(seq![x].drop_last() =~= Seq::<T>::empty());
    assert(picked(seq![x].drop_last(), p) =~= Seq::<T>::empty());
    assert(Seq::<T>::empty().push(x) =~= seq![x]);
}

pub proof fn lemma_picked_none<T>(s: Seq<T>, p: spec_fn(T) -> bool)
    requires
        forall|i: int| 0 <= i < s.len() ==> !p(#[trigger] s[i]),
    ensures
        picked(s, p) == Seq::<T>::empty(),
    decreases s.len(),
{
    if s.len() > 0 {
        assert(!p(s[s.len() - 1]));
        assert forall|i: int| 0 <= i < s.drop_last().len() implies !p(#[trigger] s.drop_last()[i]) by {
            assert(!p(s[i]));
        }
        lemma_picked_none(s.drop_last(), p);
    }
}

/// What is picked comes from the list, and everything that satisfies `p` is picked.
pub proof fn lemma_picked_items<T>(s: Seq<T>, p: spec_fn(T) -> bool)
    ensures
        forall|i: int| 0 <= i < picked(s, p).len() ==> p(#[trigger] picked(s, p)[i]) && s.contains(picked(s, p)[i]),
        forall|k: int| 0 <= k < s.len() && p(#[trigger] s[k]) ==> picked(s, p).contains(s[k]),
    decreases s.len(),
{
    if s.len() > 0 {
        let rest = s.drop_last();
        lemma_picked_items(rest, p);
        let q = picked(rest, p);
        let all = picked(s, p);
        assert forall|i: int| 0 <= i < all.len() implies p(#[trigger] all[i]) && s.contains(all[i]) by {
            if i < q.len() {
                assert(all[i] == q[i]);
                let k = choose|k: int| 0 <= k < rest.len() && rest[k] == q[i];
                assert(s[k] == all[i]);
            } else {
                assert(s[s.len() - 1] == all[i]);
            }
        }
        assert forall|k: int| 0 <= k < s.len() && p(#[trigger] s[k]) implies all.contains(s[k]) by {
            if k < rest.len() {
                assert(rest[k] == s[k]);
                let i = choose|i: int| 0 <= i < q.len() && q[i] == s[k];
                assert(all[i] == s[k]);
            } else {
                assert(all[all.len() - 1] == s[k]);
            }
        }
    }
}

/// A relation between the items of a list, in order, holds between what is picked.
pub proof fn lemma_picked_pairwise<T>(s: Seq<T>, p: spec_fn(T) -> bool, r: spec_fn(T, T) -> bool)
    requires
        forall|i: int, j: int| 0 <= i < j < s.len() ==> r(#[trigger] s[i], #[trigger] s[j]),
    ensures
        forall|i: int, j: int|
            0 <= i < j < picked(s, p).len() ==> r(#[trigger] picked(s, p)[i], #[trigger] picked(s, p)[j]),
    decreases s.len(),
{
    if s.len() > 0 {
        let rest = s.drop_last();
        lemma_picked_pairwise(rest, p, r);
        lemma_picked_items(rest, p);
        let q = picked(rest, p);
        let all = picked(s, p);
        assert forall|i: int, j: int| 0 <= i < j < all.len() implies r(#[trigger] all[i], #[trigger] all[j]) by {
            if j < q.len() {
                assert(r(q[i], q[j]));
            } else {
                assert(all[i] == q[i]);
                let k = choose|k: int| 0 <= k < rest.len() && rest[k] == q[i];
                assert(r(s[k], s[s.len() - 1]));
            }
        }
    }
}

pub proof fn lemma_picked_concat<T>(n: int, f: spec_fn(int) -> Seq<T>, g: spec_fn(int) -> Seq<T>, p: spec_fn(T) -> bool)
    requires
        forall|i: int| 0 <= i < n ==> #[trigger] g(i) == picked(f(i), p),
    ensures
        picked(concat(n, f), p) == concat(n, g),
    decreases n,
{
    if n > 0 {
        lemma_picked_concat(n - 1, f, g, p);
        lemma_picked_add(concat(n - 1, f), f(n - 1), p);
        assert(g(n - 1) == picked(f(n - 1), p));
    }
}

/// A property of every item of every block holds of every item of the concatenation.
pub proof fn lemma_concat_all<T>(n: int, f: spec_fn(int) -> Seq<T>, q: spec_fn(T) -> bool)
    requires
        forall|b: int, j: int| 0 <= b < n && 0 <= j < f(b).len() ==> q(#[trigger] f(b)[j]),
    ensures
        forall|i: int| 0 <= i < concat(n, f).len() ==> q(#[trigger] concat(n, f)[i]),
{
    assert forall|i: int| 0 <= i < concat(n, f).len() implies q(#[trigger] concat(n, f)[i]) by {
        let place = lemma_concat_entry(n, f, i);
        assert(q(f(place.0)[place.1]));
    }
}

pub proof fn lemma_concat_same<T>(n: int, f: spec_fn(int) -> Seq<T>, g: spec_fn(int) -> Seq<T>)
    requires
        forall|i: int| 0 <= i < n ==> #[trigger] f(i) == g(i),
    ensures
        concat(n, f) == concat(n, g),
    decreases n,
{
    if n > 0 {
        lemma_concat_same(n - 1, f, g);
    }
}

pub proof fn lemma_index_of<T>(s: Seq<T>, i: int)
    requires
        s.no_duplicates(),
        0 <= i < s.len(),
    ensures
        s.index_of(s[i]) == i,
{
}

pub proof fn lemma_take_set<T>(s: Seq<T>, i: int)
    requires
        0 <= i < s.len(),
    ensures
        s.take(i + 1).to_set() == s.take(i).to_set().insert(s[i]),
{
    let a = s.take(i + 1);
    let b = s.take(i);
    assert(a[i] == s[i]);
    assert forall|x: T| a.to_set().contains(x) <==> b.to_set().insert(s[i]).contains(x) by {
        if a.to_set().contains(x) {
            let k = choose|k: int| 0 <= k < a.len() && a[k] == x;
            if k < i {
                assert(b[k] == x);
            }
        }
        if b.to_set().contains(x) {
            let k = choose|k: int| 0 <= k < b.len() && b[k] == x;
            assert(a[k] == x);
        }
    }
    assert(a.to_set() =~= b.to_set().insert(s[i]));
}

/// More blocks are no shorter.
pub proof fn lemma_concat_grows<T>(f: spec_fn(int) -> Seq<T>, a: int, b: int)
    requires
        0 <= a <= b,
    ensures
        concat(a, f).len() <= concat(b, f).len(),
    decreases b,
{
    if a < b {
        lemma_concat_grows(f, a, b - 1);
    }
}

/// Where an item of a block stands.
pub proof fn lemma_concat_at<T>(n: int, f: spec_fn(int) -> Seq<T>, b: int, j: int)
    requires
        0 <= b < n,
        0 <= j < f(b).len(),
    ensures
        concat(b, f).len() + j < concat(b + 1, f).len() <= concat(n, f).len(),
        concat(n, f)[concat(b, f).len() + j] == f(b)[j],
    decreases n,
{
    lemma_concat_grows(f, b + 1, n);
    if b < n - 1 {
        lemma_concat_at(n - 1, f, b, j);
    }
}

} // verus!
