//! The numbers of arrows, kept apart by report.
use crate::text::chars_of;
use vstd::prelude::*;

verus! {

/// How many namespaces there are: as many as keep every number within 63 bits.
pub const NAMESPACES: u64 = 8_589_934_583;

/// The radix in which a name is read as a number.
pub const NAME_RADIX: u64 = 257;

/// The numbers in a namespace.
pub const FLOWS_PER_NAMESPACE: u64 = 0x4000_0000;

/// How many series of arrows there are.
pub const FLOW_SERIES: u64 = 4;

/// A text as a number whose digits are its characters.
pub open spec fn text_value(text: Seq<char>) -> int
    decreases text.len(),
{
    if text.len() == 0 {
        0
    } else {
        text_value(text.drop_last()) * NAME_RADIX + text.last() as int
    }
}

/// The namespace of a report, counted from one.
pub open spec fn namespace(report: Seq<char>) -> int {
    1 + text_value(report) % (NAMESPACES as int)
}

/// The number of an arrow of a report: the series take turns.
pub open spec fn flow_number(report: Seq<char>, base: u64, index: int) -> u64 {
    (namespace(report) * FLOWS_PER_NAMESPACE + FLOW_SERIES * index + base) as u64
}

pub proof fn lemma_namespace_bounds(report: Seq<char>)
    ensures
        1 <= namespace(report) <= NAMESPACES,
{
}

proof fn lemma_code_bounds(c: char)
    ensures
        0 <= c as int <= 0x10FFFF,
{
}

/// A remainder can be taken at every digit.
proof fn lemma_reduced_digit(x: int, c: int)
    ensures
        (x * 257 + c) % 8_589_934_583 == ((x % 8_589_934_583) * 257 + c) % 8_589_934_583,
{
    let q = x / 8_589_934_583;
    let r = x % 8_589_934_583;
    assert(x * 257 + c == (r * 257 + c) + 8_589_934_583 * (q * 257)) by (nonlinear_arith)
        requires
            x == 8_589_934_583 * q + r,
    ;
    vstd::arithmetic::div_mod::lemma_mod_multiples_vanish(q * 257, r * 257 + c, 8_589_934_583);
}

/// The namespace of a report.
pub(crate) fn namespace_of(report: &str) -> (space: u64)
    ensures
        space == namespace(report@),
        1 <= space <= NAMESPACES,
{
    let text = chars_of(report);
    let mut sum: u64 = 0;
    for i in 0..text.len()
        invariant
            text@ == report@,
            sum == text_value(report@.take(i as int)) % (NAMESPACES as int),
            sum < NAMESPACES,
    {
        assert(report@.take(i + 1).drop_last() =~= report@.take(i as int));
        let c: char = text[i];
        proof {
            lemma_code_bounds(c);
            lemma_reduced_digit(text_value(report@.take(i as int)), c as int);
        }
        sum = (sum * NAME_RADIX + c as u32 as u64) % NAMESPACES;
    }
    assert(report@.take(text@.len() as int) =~= report@);
    1 + sum
}

/// The number of an arrow in a namespace.
pub(crate) fn flow_id_at(
    space: u64,
    base: u64,
    offset: usize,
    index: usize,
    Ghost(report): Ghost<Seq<char>>,
) -> (id: u64)
    requires
        space == namespace(report),
        space <= NAMESPACES,
    ensures
        id == flow_number(report, base, offset + index),
{
    let start: u128 = space as u128 * 0x4000_0000u128;
    (start + 4u128 * (offset as u128 + index as u128) + base as u128) as u64
}

/// Texts that differ in value by less than the count of namespaces are in different ones.
proof fn lemma_near_values(a: Seq<char>, b: Seq<char>)
    requires
        text_value(a) != text_value(b),
        -8_589_934_583 < text_value(a) - text_value(b) < 8_589_934_583,
    ensures
        namespace(a) != namespace(b),
{
    let x = text_value(a);
    let y = text_value(b);
    let k = x / 8_589_934_583 - y / 8_589_934_583;
    if namespace(a) == namespace(b) {
        assert(x - y == 8_589_934_583 * k);
        assert(k == 0);
    }
}

/// Reports stay in different namespaces when the same character is added to both names.
proof fn lemma_same_end(a: Seq<char>, b: Seq<char>)
    requires
        a.len() > 0,
        b.len() > 0,
        a.last() == b.last(),
        namespace(a) == namespace(b),
    ensures
        namespace(a.drop_last()) == namespace(b.drop_last()),
{
    let c = a.last() as int;
    let x = text_value(a.drop_last());
    let y = text_value(b.drop_last());
    let k = (x * 257 + c) / 8_589_934_583 - (y * 257 + c) / 8_589_934_583;
    assert((x - y) * 257 == 8_589_934_583 * k);
    let q = k * 4_913_308_886 - (x - y) * 147;
    assert(x - y == 8_589_934_583 * q) by (nonlinear_arith)
        requires
            (x - y) * 257 == 8_589_934_583 * k,
            q == k * 4_913_308_886 - (x - y) * 147,
    ;
    vstd::arithmetic::div_mod::lemma_mod_multiples_vanish(q, y, 8_589_934_583);
    assert(x == 8_589_934_583 * q + y);
}

/// The count of values of a run of characters.
spec fn width(m: int) -> int
    decreases m,
{
    if m <= 0 {
        1
    } else {
        257 * width(m - 1)
    }
}

/// Texts of one length that differ only in their last characters have values as far
/// apart as those characters allow, and no closer than one.
proof fn lemma_last_characters(a: Seq<char>, b: Seq<char>, m: int)
    requires
        a.len() == b.len(),
        0 <= m <= a.len(),
        forall|j: int| 0 <= j < a.len() - m ==> a[j] == b[j],
        forall|j: int| a.len() - m <= j < a.len() ==> (#[trigger] a[j] as int) < 257 && (b[j] as int) < 257,
    ensures
        -width(m) < text_value(a) - text_value(b) < width(m),
        text_value(a) == text_value(b) ==> a == b,
    decreases m,
{
    if m == 0 {
        assert(a =~= b);
    } else {
        let x = a.drop_last();
        let y = b.drop_last();
        assert forall|j: int| x.len() - (m - 1) <= j < x.len() implies (#[trigger] x[j] as int) < 257 && (y[j] as int)
            < 257 by {
            assert(a[j] == x[j] && b[j] == y[j]);
        }
        lemma_last_characters(x, y, m - 1);
        let c = a[a.len() - 1];
        let d = b[b.len() - 1];
        lemma_code_bounds(c);
        lemma_code_bounds(d);
        assert((c as int) < 257 && (d as int) < 257);
        if text_value(a) == text_value(b) {
            assert(text_value(x) == text_value(y));
            assert(c as int == d as int);
            assert(a =~= x.push(c));
            assert(b =~= y.push(d));
        }
    }
}

/// Reports whose names have one length and differ only within four neighbouring
/// characters of the first 257, such as a running number, have different namespaces.
pub proof fn lemma_numbered_reports_differ(a: Seq<char>, b: Seq<char>, i: int)
    requires
        a.len() == b.len(),
        a != b,
        0 <= i,
        forall|j: int| 0 <= j < a.len() && !(i <= j < i + 4) ==> a[j] == b[j],
        forall|j: int| 0 <= j < a.len() && i <= j < i + 4 ==> (#[trigger] a[j] as int) < 257 && (b[j] as int) < 257,
    ensures
        namespace(a) != namespace(b),
    decreases a.len(),
{
    let n = a.len() as int;
    if n == 0 {
        assert(a =~= b);
    } else if n <= i + 4 {
        let m = if n <= i {
            0
        } else {
            n - i
        };
        reveal_with_fuel(width, 5);
        lemma_last_characters(a, b, m);
        lemma_near_values(a, b);
    } else {
        let x = a.drop_last();
        let y = b.drop_last();
        assert(a[n - 1] == b[n - 1]);
        if x == y {
            assert(a =~= x.push(a[n - 1]));
            assert(b =~= y.push(b[n - 1]));
        }
        assert forall|j: int| 0 <= j < x.len() && i <= j < i + 4 implies (#[trigger] x[j] as int) < 257 && (y[j] as int)
            < 257 by {
            assert(a[j] == x[j] && b[j] == y[j]);
        }
        lemma_numbered_reports_differ(x, y, i);
        if namespace(a) == namespace(b) {
            lemma_same_end(a, b);
        }
    }
}

/// Reports whose names differ in one character have different namespaces.
pub proof fn lemma_namespaces_differ(a: Seq<char>, b: Seq<char>, i: int)
    requires
        a.len() == b.len(),
        0 <= i < a.len(),
        a[i] != b[i],
        forall|j: int| 0 <= j < a.len() && j != i ==> a[j] == b[j],
    ensures
        namespace(a) != namespace(b),
    decreases a.len(),
{
    if i == a.len() - 1 {
        assert(a.drop_last() =~= b.drop_last());
        lemma_code_bounds(a.last());
        lemma_code_bounds(b.last());
        lemma_near_values(a, b);
    } else {
        lemma_namespaces_differ(a.drop_last(), b.drop_last(), i);
        if namespace(a) == namespace(b) {
            lemma_same_end(a, b);
        }
    }
}

/// The characters have codes from 1 to 256.
pub open spec fn plain_name(text: Seq<char>) -> bool {
    forall|j: int| 0 <= j < text.len() ==> 1 <= (#[trigger] text[j] as int) <= 256
}

proof fn lemma_plain_values(a: Seq<char>, b: Seq<char>)
    requires
        plain_name(a),
        plain_name(b),
    ensures
        0 <= text_value(a) < width(a.len() as int),
        a.len() > 0 ==> text_value(a) > 0,
        text_value(a) == text_value(b) ==> a == b,
    decreases a.len() + b.len(),
{
    let x = a.drop_last();
    let y = b.drop_last();
    if a.len() > 0 {
        assert(forall|j: int| 0 <= j < x.len() ==> x[j] == #[trigger] a[j]);
        assert(1 <= a[a.len() - 1] as int <= 256);
        lemma_plain_values(x, Seq::empty());
    }
    if b.len() > 0 {
        assert(forall|j: int| 0 <= j < y.len() ==> y[j] == #[trigger] b[j]);
        assert(1 <= b[b.len() - 1] as int <= 256);
        lemma_plain_values(y, Seq::empty());
    }
    if text_value(a) == text_value(b) {
        if a.len() > 0 && b.len() > 0 {
            assert(text_value(x) == text_value(y));
            lemma_plain_values(x, y);
            assert(a =~= x.push(a.last()));
            assert(b =~= y.push(b.last()));
        } else {
            assert(a =~= b);
        }
    }
}

/// Reports with different names of up to four plain characters have different
/// namespaces.
pub proof fn lemma_short_names_differ(a: Seq<char>, b: Seq<char>)
    requires
        a != b,
        a.len() <= 4,
        b.len() <= 4,
        plain_name(a),
        plain_name(b),
    ensures
        namespace(a) != namespace(b),
{
    reveal_with_fuel(width, 5);
    lemma_plain_values(a, b);
    lemma_plain_values(b, a);
    lemma_near_values(a, b);
}

} // verus!
