//! The begin and end events of a track replay as a stack.
use crate::ranges::{opens, owner, Mark};
use vstd::prelude::*;

verus! {

/// When the range of a mark begins and ends on its track.
pub open spec fn span(m: Mark) -> (int, int) {
    if opens(m) {
        (m.0.2 as int, -m.1.1)
    } else {
        (-m.1.1, m.0.2 as int)
    }
}

/// The ranges that are open after the marks: a begin pushes its range, an end pops it.
/// There is no such stack if an end meets another range than its own.
pub open spec fn stack_after(t: Seq<Mark>) -> Option<Seq<(int, int, int)>>
    decreases t.len(),
{
    if t.len() == 0 {
        Some(Seq::empty())
    } else {
        match stack_after(t.drop_last()) {
            Some(stack) => if opens(t.last()) {
                Some(stack.push(owner(t.last())))
            } else if stack.len() > 0 && stack.last() == owner(t.last()) {
                Some(stack.drop_last())
            } else {
                None
            },
            None => None,
        }
    }
}

/// One span encloses the other.
pub open spec fn encloses(a: (int, int), b: (int, int)) -> bool {
    a.0 <= b.0 && b.1 <= a.1
}

/// Two spans are disjoint or nested.
pub open spec fn laminar(a: (int, int), b: (int, int)) -> bool {
    a.1 <= b.0 || b.1 <= a.0 || encloses(a, b) || encloses(b, a)
}

/// The marks of one track are sorted.
pub open spec fn in_order(a: Mark, b: Mark) -> bool {
    ||| a.0.2 < b.0.2
    ||| a.0.2 == b.0.2 && a.1.0 < b.1.0
    ||| a.0.2 == b.0.2 && a.1.0 == b.1.0 && a.1.1 < b.1.1
    ||| a.0.2 == b.0.2 && a.1.0 == b.1.0 && a.1.1 == b.1.1 && a.1.2 < b.1.2
    ||| a.0.2 == b.0.2 && a.1.0 == b.1.0 && a.1.1 == b.1.1 && a.1.2 == b.1.2 && a.2.0 < b.2.0
    ||| a.0.2 == b.0.2 && a.1.0 == b.1.0 && a.1.1 == b.1.1 && a.1.2 == b.1.2 && a.2.0 == b.2.0 && a.2.2 < b.2.2
}

/// A mark of a range that does not end before it begins.
pub open spec fn well_shaped(m: Mark) -> bool {
    &&& m.2.2 == 0 || m.2.2 == 1
    &&& span(m).0 <= span(m).1
    &&& if span(m).0 < span(m).1 {
        m.1.0 == (if opens(m) {
            2i64
        } else {
            1i64
        })
    } else {
        m.1.0 == 0 || m.1.0 == 3
    }
}

/// The two marks of one range.
pub open spec fn paired(a: Mark, b: Mark) -> bool {
    &&& span(a) == span(b)
    &&& opens(a) != opens(b)
    &&& span(a).0 == span(a).1 ==> a.1.0 == b.1.0
}

/// Both ends of the range are marked.
#[verifier::opaque]
pub open spec fn has_partner(t: Seq<Mark>, i: int) -> bool {
    exists|j: int| 0 <= j < t.len() && owner(#[trigger] t[j]) == owner(t[i]) && opens(t[j]) != opens(t[i])
}

/// The marks of a track: in order, two to a range, and the ranges disjoint or nested.
#[verifier::opaque]
pub open spec fn well_marked(t: Seq<Mark>) -> bool {
    &&& forall|i: int, j: int| 0 <= i < j < t.len() ==> in_order(#[trigger] t[i], #[trigger] t[j])
    &&& forall|i: int| 0 <= i < t.len() ==> well_shaped(#[trigger] t[i]) && t[i].2.1 == t[0].2.1 && has_partner(t, i)
    &&& forall|i: int, j: int|
        0 <= i < j < t.len() && owner(#[trigger] t[i]) == owner(#[trigger] t[j]) ==> paired(t[i], t[j])
    &&& forall|i: int, j: int|
        0 <= i < t.len() && 0 <= j < t.len() ==> laminar(span(#[trigger] t[i]), span(#[trigger] t[j]))
}

/// The range of an owner has begun before `n` and has not ended.
#[verifier::opaque]
spec fn is_open(t: Seq<Mark>, n: int, o: (int, int, int)) -> bool {
    &&& exists|i: int| 0 <= i < n && owner(#[trigger] t[i]) == o && opens(t[i])
    &&& forall|i: int| 0 <= i < n && owner(#[trigger] t[i]) == o ==> opens(t[i])
}

/// Where the range of an owner begins.
spec fn begin_of(t: Seq<Mark>, o: (int, int, int)) -> int {
    choose|i: int| 0 <= i < t.len() && owner(#[trigger] t[i]) == o && opens(t[i])
}

proof fn lemma_partner(t: Seq<Mark>, i: int) -> (j: int)
    requires
        well_marked(t),
        0 <= i < t.len(),
    ensures
        0 <= j < t.len(),
        owner(t[j]) == owner(t[i]),
        opens(t[j]) != opens(t[i]),
{
    assert(has_partner(t, i)) by {
        reveal(well_marked);
        assert(well_shaped(t[i]));
    }
    reveal(has_partner);
    choose|j: int| 0 <= j < t.len() && owner(#[trigger] t[j]) == owner(t[i]) && opens(t[j]) != opens(t[i])
}

/// What holds of two marks of one range.
proof fn lemma_two(t: Seq<Mark>, i: int, j: int)
    requires
        well_marked(t),
        0 <= i < j < t.len(),
        owner(t[i]) == owner(t[j]),
    ensures
        paired(t[i], t[j]),
        in_order(t[i], t[j]),
        well_shaped(t[i]),
        well_shaped(t[j]),
{
    reveal(well_marked);
    assert(well_shaped(t[i]) && well_shaped(t[j]));
}

/// A range begins before it ends.
proof fn lemma_begin_first(a: Mark, b: Mark)
    requires
        owner(a) == owner(b),
        paired(a, b),
        in_order(a, b),
        well_shaped(a),
        well_shaped(b),
    ensures
        opens(a),
        !opens(b),
{
}

/// The begin and the end of the range of a mark.
proof fn lemma_pair(t: Seq<Mark>, i: int) -> (ends: (int, int))
    requires
        well_marked(t),
        0 <= i < t.len(),
    ensures
        0 <= ends.0 < ends.1 < t.len(),
        ends.0 == begin_of(t, owner(t[i])),
        owner(t[ends.0]) == owner(t[i]),
        owner(t[ends.1]) == owner(t[i]),
        opens(t[ends.0]),
        !opens(t[ends.1]),
        span(t[ends.0]) == span(t[i]),
        span(t[ends.1]) == span(t[i]),
        paired(t[ends.0], t[ends.1]),
        in_order(t[ends.0], t[ends.1]),
        i == ends.0 || i == ends.1,
        well_shaped(t[ends.0]),
        well_shaped(t[ends.1]),
{
    let o = owner(t[i]);
    let j = lemma_partner(t, i);
    let (x, e) = if i < j {
        (i, j)
    } else {
        (j, i)
    };
    lemma_two(t, x, e);
    lemma_begin_first(t[x], t[e]);
    let b = begin_of(t, o);
    assert(owner(t[x]) == o && opens(t[x]));
    assert(0 <= b < t.len() && owner(t[b]) == o && opens(t[b]));
    if b < x {
        lemma_two(t, b, x);
    }
    if x < b {
        lemma_two(t, x, b);
    }
    (x, e)
}

/// A range that begins inside a range and ends after it is that range.
proof fn lemma_no_crossing(t: Seq<Mark>, b: int, x: int, e: int, y: int)
    requires
        well_marked(t),
        0 <= b < x < e < y < t.len(),
        owner(t[b]) == owner(t[e]),
        owner(t[x]) == owner(t[y]),
        opens(t[b]),
        opens(t[x]),
        !opens(t[e]),
        !opens(t[y]),
    ensures
        owner(t[b]) == owner(t[x]),
{
    reveal(well_marked);
    assert(in_order(t[b], t[x]) && in_order(t[x], t[e]) && in_order(t[e], t[y]));
    assert(well_shaped(t[b]) && well_shaped(t[x]) && well_shaped(t[e]) && well_shaped(t[y]));
    assert(paired(t[b], t[e]) && paired(t[x], t[y]));
    assert(t[b].2.1 == t[x].2.1);
    assert(laminar(span(t[b]), span(t[x])));
    let o = span(t[b]);
    let v = span(t[x]);
    if o.0 == o.1 {
        assert(t[b].1.2 == t[e].1.2 && t[b].2.0 == t[e].2.0);
        assert(t[x].1.2 == t[b].1.2 && t[x].2.0 == t[b].2.0);
    } else if v.0 == v.1 {
        assert(t[e].1.0 == t[x].1.0);
    } else {
        assert(o == v);
    }
}

/// The open ranges in the order in which they began are what the stack holds.
proof fn lemma_open_stack(t: Seq<Mark>, n: int) -> (owners: Seq<(int, int, int)>)
    requires
        well_marked(t),
        0 <= n <= t.len(),
    ensures
        forall|o: (int, int, int)| #[trigger] owners.contains(o) <==> is_open(t, n, o),
        forall|a: int, b: int|
            0 <= a < b < owners.len() ==> begin_of(t, #[trigger] owners[a]) < begin_of(t, #[trigger] owners[b]),
        stack_after(t.take(n)) == Some(owners),
    decreases n,
{
    if n == 0 {
        reveal(is_open);
        Seq::empty()
    } else {
        let before = lemma_open_stack(t, n - 1);
        assert(t.take(n).drop_last() =~= t.take(n - 1));
        assert(t.take(n).last() == t[n - 1]);
        if opens(t[n - 1]) {
            lemma_push(t, n, before);
            before.push(owner(t[n - 1]))
        } else {
            lemma_pop(t, n, before);
            before.drop_last()
        }
    }
}

proof fn lemma_push(t: Seq<Mark>, n: int, before: Seq<(int, int, int)>)
    requires
        well_marked(t),
        0 < n <= t.len(),
        opens(t[n - 1]),
        forall|o: (int, int, int)| #[trigger] before.contains(o) <==> is_open(t, n - 1, o),
        forall|a: int, b: int|
            0 <= a < b < before.len() ==> begin_of(t, #[trigger] before[a]) < begin_of(t, #[trigger] before[b]),
    ensures
        forall|o: (int, int, int)| #[trigger] before.push(owner(t[n - 1])).contains(o) <==> is_open(t, n, o),
        forall|a: int, b: int|
            0 <= a < b <= before.len() ==> begin_of(t, #[trigger] before.push(owner(t[n - 1]))[a]) < begin_of(
                t,
                #[trigger] before.push(owner(t[n - 1]))[b],
            ),
{
    reveal(is_open);
    let o = owner(t[n - 1]);
    let owners = before.push(o);
    let own = lemma_pair(t, n - 1);
    // The range has neither begun nor ended before.
    assert forall|i: int| 0 <= i < n - 1 implies owner(#[trigger] t[i]) != o by {
        if owner(t[i]) == o {
            let ends = lemma_pair(t, i);
        }
    }
    assert forall|x: (int, int, int)| #[trigger] owners.contains(x) <==> is_open(t, n, x) by {
        if owners.contains(x) {
            let a = choose|a: int| 0 <= a < owners.len() && owners[a] == x;
            if a < before.len() {
                assert(before[a] == x);
                assert(before.contains(x));
                let i = choose|i: int| 0 <= i < n - 1 && owner(#[trigger] t[i]) == x && opens(t[i]);
                assert(owner(t[i]) == x && opens(t[i]));
            } else {
                assert(owner(t[n - 1]) == x && opens(t[n - 1]));
            }
        }
        if is_open(t, n, x) {
            if x == o {
                assert(owners[before.len() as int] == x);
            } else {
                let i = choose|i: int| 0 <= i < n && owner(#[trigger] t[i]) == x && opens(t[i]);
                assert(i < n - 1);
                assert(is_open(t, n - 1, x));
                assert(before.contains(x));
                let a = choose|a: int| 0 <= a < before.len() && before[a] == x;
                assert(owners[a] == x);
            }
        }
    }
    assert forall|a: int, b: int| 0 <= a < b <= before.len() implies begin_of(t, #[trigger] owners[a]) < begin_of(
        t,
        #[trigger] owners[b],
    ) by {
        if b < before.len() {
            assert(begin_of(t, before[a]) < begin_of(t, before[b]));
        } else {
            let x = before[a];
            assert(before.contains(x));
            let i = choose|i: int| 0 <= i < n - 1 && owner(#[trigger] t[i]) == x && opens(t[i]);
            let ends = lemma_pair(t, i);
        }
    }
}

/// The end of an open range is still to come.
proof fn lemma_end_to_come(t: Seq<Mark>, n: int, o: (int, int, int)) -> (e: int)
    requires
        well_marked(t),
        0 <= n <= t.len(),
        is_open(t, n, o),
    ensures
        n <= e < t.len(),
        owner(t[e]) == o,
        !opens(t[e]),
        0 <= begin_of(t, o) < n,
        owner(t[begin_of(t, o)]) == o,
        opens(t[begin_of(t, o)]),
{
    reveal(is_open);
    let i = choose|i: int| 0 <= i < n && owner(#[trigger] t[i]) == o && opens(t[i]);
    let ends = lemma_pair(t, i);
    if ends.1 < n {
        assert(opens(t[ends.1]));
    }
    ends.1
}

proof fn lemma_pop(t: Seq<Mark>, n: int, before: Seq<(int, int, int)>)
    requires
        well_marked(t),
        0 < n <= t.len(),
        !opens(t[n - 1]),
        forall|o: (int, int, int)| #[trigger] before.contains(o) <==> is_open(t, n - 1, o),
        forall|a: int, b: int|
            0 <= a < b < before.len() ==> begin_of(t, #[trigger] before[a]) < begin_of(t, #[trigger] before[b]),
    ensures
        before.len() > 0,
        before.last() == owner(t[n - 1]),
        forall|o: (int, int, int)| #[trigger] before.drop_last().contains(o) <==> is_open(t, n, o),
{
    let e = n - 1;
    let o = owner(t[e]);
    let ends = lemma_pair(t, e);
    assert(is_open(t, e, o)) by {
        reveal(is_open);
        assert(owner(t[ends.0]) == o && opens(t[ends.0]));
        assert forall|i: int| 0 <= i < e && owner(#[trigger] t[i]) == o implies opens(t[i]) by {
            lemma_two(t, i, e);
        }
    }
    assert(before.contains(o));
    let p = choose|p: int| 0 <= p < before.len() && before[p] == o;
    let last = before.len() - 1;
    if p != last {
        let x = before[last];
        assert(before.contains(x));
        assert(begin_of(t, before[p]) < begin_of(t, before[last]));
        let y = lemma_end_to_come(t, e, x);
        assert(x != o);
        lemma_no_crossing(t, ends.0, begin_of(t, x), e, y);
    }
    let owners = before.drop_last();
    assert forall|x: (int, int, int)| #[trigger] owners.contains(x) <==> is_open(t, n, x) by {
        lemma_still_open(t, n, x);
        if owners.contains(x) {
            let a = choose|a: int| 0 <= a < owners.len() && owners[a] == x;
            assert(before[a] == x);
            assert(before.contains(x));
            assert(begin_of(t, before[a]) < begin_of(t, before[last]));
        }
        if is_open(t, e, x) && x != o {
            assert(before.contains(x));
            let a = choose|a: int| 0 <= a < before.len() && before[a] == x;
            assert(owners[a] == x);
        }
    }
}

/// Ending a range leaves the others open.
proof fn lemma_still_open(t: Seq<Mark>, n: int, x: (int, int, int))
    requires
        well_marked(t),
        0 < n <= t.len(),
        !opens(t[n - 1]),
    ensures
        is_open(t, n, x) <==> is_open(t, n - 1, x) && x != owner(t[n - 1]),
{
    reveal(is_open);
    if is_open(t, n, x) {
        let i = choose|i: int| 0 <= i < n && owner(#[trigger] t[i]) == x && opens(t[i]);
        assert(i < n - 1);
        assert(owner(t[n - 1]) != x);
    }
    if is_open(t, n - 1, x) && x != owner(t[n - 1]) {
        let i = choose|i: int| 0 <= i < n - 1 && owner(#[trigger] t[i]) == x && opens(t[i]);
        assert(owner(t[i]) == x && opens(t[i]));
    }
}

/// Replaying the marks of a track closes every range that it opens, the one that began
/// last first, and leaves nothing open.
pub proof fn lemma_marks_replay(t: Seq<Mark>)
    requires
        well_marked(t),
    ensures
        stack_after(t) == Some(Seq::<(int, int, int)>::empty()),
{
    let owners = lemma_open_stack(t, t.len() as int);
    assert(t.take(t.len() as int) =~= t);
    if owners.len() > 0 {
        assert(owners.contains(owners[0]));
        let e = lemma_end_to_come(t, t.len() as int, owners[0]);
    }
    assert(owners =~= Seq::empty());
}

/// A range that takes no time stands inside a range around it, provided that it stands
/// before the ends where that range ends, and after the begins where it begins.
pub proof fn lemma_pair_stands_inside(t: Seq<Mark>, b: int, e: int, x: int, y: int)
    requires
        well_marked(t),
        0 <= b < t.len(),
        0 <= e < t.len(),
        0 <= x < t.len(),
        0 <= y < t.len(),
        owner(t[b]) == owner(t[e]),
        owner(t[x]) == owner(t[y]),
        opens(t[b]),
        !opens(t[e]),
        opens(t[x]),
        !opens(t[y]),
        span(t[b]).0 == span(t[b]).1,
        span(t[x]).0 < span(t[x]).1,
        encloses(span(t[x]), span(t[b])),
        span(t[x]).1 == span(t[b]).0 ==> t[b].1.0 == 0,
        span(t[x]).0 == span(t[b]).0 ==> t[b].1.0 == 3,
    ensures
        x < b < e < y,
{
    reveal(well_marked);
    let own = lemma_pair(t, b);
    let around = lemma_pair(t, x);
    assert(e == own.1) by {
        let again = lemma_pair(t, e);
    }
    assert(y == around.1) by {
        let again = lemma_pair(t, y);
    }
    assert(t[b].1.0 == t[e].1.0);
    if b <= x {
        assert(in_order(t[b], t[x]) || b == x);
    }
    if y <= e {
        assert(in_order(t[y], t[e]) || e == y);
    }
}

} // verus!
