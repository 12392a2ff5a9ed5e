//! Projects NVTX ranges onto the kernels launched from inside them.
use crate::link::{call_key, group_by_key, groups, kernel_key};
use crate::model::{pid_of, source_pid, Kernel, NvtxRange, RuntimeCall};
use crate::order::{
    increasing, keyed, lemma_boundary_keyed, lemma_integers_keyed, lemma_lists_is_ordered, lemma_moment_keyed,
    lemma_order_laws, lemma_pair_keyed, lemma_trichotomy, lists, ordered, ordered_vec, precedes,
};
use crate::seqs::{concat, lemma_concat_same, lemma_positions, positions};
use crate::text::texts;
use std::collections::{BTreeMap, BTreeSet};
use vstd::prelude::*;

verus! {

/// A range is open at an instant: it started before, and ends later. A range that
/// takes no time is never open.
pub open spec fn open_at(range: NvtxRange, at: i64) -> bool {
    range.start < at && at < range.end
}

/// A call made inside a range started the kernel.
pub open spec fn projects(kernel: Kernel, call: RuntimeCall, range: NvtxRange) -> bool {
    &&& call_key(call) == kernel_key(kernel)
    &&& range.pid == pid_of(kernel.global_pid)
    &&& open_at(range, call.start)
}

pub open spec fn projected(kernel: Kernel, runtime: Seq<RuntimeCall>, range: NvtxRange) -> bool {
    exists|c: int| 0 <= c < runtime.len() && projects(kernel, #[trigger] runtime[c], range)
}

/// The kernels of a device that a range projects to.
pub open spec fn projected_kernels(
    kernels: Seq<Kernel>,
    runtime: Seq<RuntimeCall>,
    range: NvtxRange,
    device: i64,
) -> Set<int> {
    Set::new(
        |k: int| 0 <= k < kernels.len() && kernels[k].device == device && projected(kernels[k], runtime, range),
    )
}

pub open spec fn lookup(bounds: Map<i64, (i64, i64)>, device: i64) -> Option<(i64, i64)> {
    if bounds.contains_key(device) {
        Some(bounds[device])
    } else {
        None
    }
}

/// `new` is the smallest envelope of `old` and the kernels in `members`.
pub open spec fn envelope(
    old: Option<(i64, i64)>,
    kernels: Seq<Kernel>,
    members: Set<int>,
    new: Option<(i64, i64)>,
) -> bool {
    match new {
        None => old is None && forall|k: int| !members.contains(k),
        Some((start, end)) => {
            &&& forall|k: int| #[trigger]
                members.contains(k) ==> start <= kernels[k].start && kernels[k].end <= end
            &&& old matches Some(bounds) ==> start <= bounds.0 && bounds.1 <= end
            &&& (exists|k: int| #[trigger] members.contains(k) && kernels[k].start == start) || (
            old matches Some(bounds) && bounds.0 == start)
            &&& (exists|k: int| #[trigger] members.contains(k) && kernels[k].end == end) || (
            old matches Some(bounds) && bounds.1 == end)
        },
    }
}

/// The moments at which calls with a key start.
pub open spec fn call_moments(runtime: Seq<RuntimeCall>, key: (i64, i64)) -> Set<(i64, usize)> {
    Set::new(
        |m: (i64, usize)|
            m.1 < runtime.len() && call_key(runtime[m.1 as int]) == key && m.0 == runtime[m.1 as int].start,
    )
}

/// The names of the ranges of a process that are open at an instant.
pub open spec fn open_names(nvtx: Seq<NvtxRange>, pid: i64, at: i64) -> Seq<Seq<char>> {
    concat(
        nvtx.len() as int,
        |r: int|
            if nvtx[r].pid == pid && open_at(nvtx[r], at) {
                seq![nvtx[r].name@]
            } else {
                Seq::empty()
            },
    )
}

/// The names of the open ranges at a list of moments.
pub open spec fn names_at(nvtx: Seq<NvtxRange>, pid: i64, moments: Seq<(i64, usize)>) -> Seq<Seq<char>> {
    concat(moments.len() as int, |i: int| open_names(nvtx, pid, moments[i].0))
}

/// The region names of a kernel: for each call with its key, in the order in which
/// the calls start, the names of the ranges open around the call.
pub open spec fn region_names(kernel: Kernel, runtime: Seq<RuntimeCall>, nvtx: Seq<NvtxRange>) -> Seq<Seq<char>> {
    names_at(nvtx, pid_of(kernel.global_pid), ordered(call_moments(runtime, kernel_key(kernel))))
}

/// Appends the names that are not yet listed.
pub open spec fn append_new(regions: Seq<Seq<char>>, names: Seq<Seq<char>>) -> Seq<Seq<char>>
    decreases names.len(),
{
    if names.len() == 0 {
        regions
    } else {
        let earlier = append_new(regions, names.drop_last());
        if earlier.contains(names.last()) {
            earlier
        } else {
            earlier.push(names.last())
        }
    }
}

/// The kernels of `after` are those of `before` with the region names added.
pub open spec fn regions_projected(
    before: Seq<Kernel>,
    nvtx: Seq<NvtxRange>,
    runtime: Seq<RuntimeCall>,
    after: Seq<Kernel>,
) -> bool {
    &&& after.len() == before.len()
    &&& forall|k: int|
        0 <= k < before.len() ==> #[trigger] after[k] == (Kernel {
            nvtx_regions: after[k].nvtx_regions,
            ..before[k]
        })
    &&& forall|k: int|
        0 <= k < before.len() ==> texts((#[trigger] after[k]).nvtx_regions@) == append_new(
            texts(before[k].nvtx_regions@),
            region_names(before[k], runtime, nvtx),
        )
}

/// The ranges of `after` are those of `before` with new kernel bounds.
pub open spec fn same_but_bounds(before: Seq<NvtxRange>, after: Seq<NvtxRange>) -> bool {
    &&& after.len() == before.len()
    &&& forall|r: int|
        0 <= r < before.len() ==> #[trigger] after[r] == (NvtxRange {
            kernel_bounds: after[r].kernel_bounds,
            ..before[r]
        })
}

/// On every device the bounds of each range envelop the kernels it projects to.
pub open spec fn bounds_projected(
    before: Seq<NvtxRange>,
    kernels: Seq<Kernel>,
    runtime: Seq<RuntimeCall>,
    after: Seq<NvtxRange>,
) -> bool {
    &&& same_but_bounds(before, after)
    &&& forall|r: int, d: i64|
        0 <= r < before.len() ==> #[trigger] bounds_settled(before[r], kernels, runtime, after[r], d)
}

pub open spec fn bounds_settled(
    before: NvtxRange,
    kernels: Seq<Kernel>,
    runtime: Seq<RuntimeCall>,
    after: NvtxRange,
    device: i64,
) -> bool {
    envelope(
        lookup(before.kernel_bounds@, device),
        kernels,
        projected_kernels(kernels, runtime, before, device),
        lookup(after.kernel_bounds@, device),
    )
}

fn has_text(list: &Vec<String>, text: &String) -> (r: bool)
    ensures
        r == texts(list@).contains(text@),
{
    for i in 0..list.len()
        invariant
            forall|k: int| 0 <= k < i ==> (#[trigger] list@[k])@ != text@,
    {
        if list[i] == *text {
            assert(texts(list@)[i as int] == text@);
            return true;
        }
    }
    proof {
        if texts(list@).contains(text@) {
            let k = choose|k: int| 0 <= k < texts(list@).len() && texts(list@)[k] == text@;
            assert(list@[k]@ == text@);
        }
    }
    false
}

proof fn lemma_append_new_concat(regions: Seq<Seq<char>>, a: Seq<Seq<char>>, b: Seq<Seq<char>>)
    ensures
        append_new(regions, a + b) == append_new(append_new(regions, a), b),
    decreases b.len(),
{
    if b.len() == 0 {
        assert(a + b =~= a);
    } else {
        assert((a + b).drop_last() =~= a + b.drop_last());
        lemma_append_new_concat(regions, a, b.drop_last());
    }
}

/// Adds the names of the open ranges to the regions of a kernel.
fn note_regions(kernel: &mut Kernel, nvtx: &[NvtxRange], active: &Vec<usize>)
    requires
        forall|a: int| 0 <= a < active@.len() ==> #[trigger] active@[a] < nvtx@.len(),
    ensures
        *final(kernel) == (Kernel { nvtx_regions: final(kernel).nvtx_regions, ..*old(kernel) }),
        texts(final(kernel).nvtx_regions@) == append_new(
            texts(old(kernel).nvtx_regions@),
            Seq::new(active@.len(), |a: int| nvtx@[active@[a] as int].name@),
        ),
{
    let ghost before = *kernel;
    let ghost names = Seq::new(active@.len(), |a: int| nvtx@[active@[a] as int].name@);
    for a in 0..active.len()
        invariant
            forall|a: int| 0 <= a < active@.len() ==> #[trigger] active@[a] < nvtx@.len(),
            names == Seq::new(active@.len(), |a: int| nvtx@[active@[a] as int].name@),
            *kernel == (Kernel { nvtx_regions: kernel.nvtx_regions, ..before }),
            texts(kernel.nvtx_regions@) == append_new(texts(before.nvtx_regions@), names.take(a as int)),
    {
        let range: usize = active[a];
        let ghost earlier = texts(kernel.nvtx_regions@);
        assert(names.take(a + 1).drop_last() =~= names.take(a as int));
        if !has_text(&kernel.nvtx_regions, &nvtx[range].name) {
            kernel.nvtx_regions.push(nvtx[range].name.clone());
            assert(texts(kernel.nvtx_regions@) =~= earlier.push(names[a as int]));
        }
    }
    assert(names.take(active@.len() as int) =~= names);
}

spec fn widened(bounds: Option<(i64, i64)>, start: i64, end: i64) -> (i64, i64) {
    match bounds {
        None => (start, end),
        Some((s, e)) => (
            if s <= start {
                s
            } else {
                start
            },
            if e >= end {
                e
            } else {
                end
            },
        ),
    }
}

/// Widens the bounds of the open ranges so that they hold a kernel.
fn widen_bounds(nvtx: &mut [NvtxRange], active: &Vec<usize>, device: i64, start: i64, end: i64)
    requires
        forall|a: int| 0 <= a < active@.len() ==> #[trigger] active@[a] < old(nvtx)@.len(),
        active@.no_duplicates(),
    ensures
        same_but_bounds(old(nvtx)@, final(nvtx)@),
        forall|r: int|
            0 <= r < old(nvtx)@.len() ==> (#[trigger] final(nvtx)@[r]).kernel_bounds@ == (if active@.contains(
                r as usize,
            ) {
                old(nvtx)@[r].kernel_bounds@.insert(
                    device,
                    widened(lookup(old(nvtx)@[r].kernel_bounds@, device), start, end),
                )
            } else {
                old(nvtx)@[r].kernel_bounds@
            }),
{
    proof {
        lemma_integers_keyed();
    }
    let ghost before = nvtx@;
    let _range_count: usize = nvtx.len();
    for a in 0..active.len()
        invariant
            keyed::<i64>(),
            before.len() <= usize::MAX,
            active@.no_duplicates(),
            forall|a: int| 0 <= a < active@.len() ==> #[trigger] active@[a] < before.len(),
            same_but_bounds(before, nvtx@),
            forall|r: int|
                0 <= r < before.len() ==> (#[trigger] nvtx@[r]).kernel_bounds@ == (if active@.take(
                    a as int,
                ).contains(r as usize) {
                    before[r].kernel_bounds@.insert(
                        device,
                        widened(lookup(before[r].kernel_bounds@, device), start, end),
                    )
                } else {
                    before[r].kernel_bounds@
                }),
    {
        let range: usize = active[a];
        let ghost now = nvtx@;
        let ghost seen = active@.take(a as int);
        proof {
            assert(!seen.contains(range)) by {
                if seen.contains(range) {
                    let k = choose|k: int| 0 <= k < seen.len() && seen[k] == range;
                    assert(active@[k] == active@[a as int]);
                }
            }
        }
        let bounds: (i64, i64) = match nvtx[range].kernel_bounds.get(&device) {
            None => (start, end),
            Some(b) => {
                let s: i64 = b.0;
                let e: i64 = b.1;
                (
                    if s <= start {
                        s
                    } else {
                        start
                    },
                    if e >= end {
                        e
                    } else {
                        end
                    },
                )
            },
        };
        nvtx[range].kernel_bounds.insert(device, bounds);
        proof {
            let next = active@.take(a + 1);
            assert forall|r: usize| #[trigger] next.contains(r) <==> (seen.contains(r) || r == range) by {
                assert(next[a as int] == range);
                if next.contains(r) {
                    let k = choose|k: int| 0 <= k < next.len() && next[k] == r;
                    if k < a {
                        assert(seen[k] == next[k]);
                    }
                }
                if seen.contains(r) {
                    let k = choose|k: int| 0 <= k < seen.len() && seen[k] == r;
                    assert(next[k] == seen[k]);
                }
            }
        }
    }
    assert(active@.take(active@.len() as int) =~= active@);
}

const NVTX_END: i64 = 0;

const API_START: i64 = 1;

const NVTX_START: i64 = 2;

pub open spec fn kernel_keys(kernels: Seq<Kernel>) -> Seq<(i64, i64)> {
    Seq::new(kernels.len(), |i: int| kernel_key(kernels[i]))
}

/// A range of a process that takes time.
spec fn sweeps(range: NvtxRange, pid: i64) -> bool {
    range.pid == pid && range.start < range.end
}

/// The boundaries of a process in sweep order: at one instant ranges close, then
/// calls start, then ranges open. Ranges that take no time have none.
spec fn boundary_set(
    nvtx: Seq<NvtxRange>,
    ranges: int,
    runtime: Seq<RuntimeCall>,
    calls: int,
    keys: Seq<(i64, i64)>,
    pid: i64,
) -> Set<(i64, i64, usize)> {
    Set::new(
        |b: (i64, i64, usize)|
            {
                ||| b.1 == NVTX_START && b.2 < ranges && sweeps(nvtx[b.2 as int], pid) && b.0
                    == nvtx[b.2 as int].start
                ||| b.1 == NVTX_END && b.2 < ranges && sweeps(nvtx[b.2 as int], pid) && b.0 == nvtx[b.2 as int].end
                ||| b.1 == API_START && b.2 < calls && b.0 == runtime[b.2 as int].start && pid_of(
                    runtime[b.2 as int].global_tid,
                ) == pid && keys.contains(call_key(runtime[b.2 as int]))
            },
    )
}

spec fn all_boundaries(
    nvtx: Seq<NvtxRange>,
    runtime: Seq<RuntimeCall>,
    keys: Seq<(i64, i64)>,
    pid: i64,
) -> Set<(i64, i64, usize)> {
    boundary_set(nvtx, nvtx.len() as int, runtime, runtime.len() as int, keys, pid)
}

fn collect_boundaries(
    nvtx: &[NvtxRange],
    runtime: &[RuntimeCall],
    index: &BTreeMap<(i64, i64), Vec<usize>>,
    pid: i64,
    Ghost(keys): Ghost<Seq<(i64, i64)>>,
) -> (boundaries: Vec<(i64, i64, usize)>)
    requires
        groups(index@, keys),
    ensures
        lists(boundaries@, all_boundaries(nvtx@, runtime@, keys, pid)),
{
    proof {
        lemma_boundary_keyed();
        lemma_pair_keyed();
    }
    let mut set: BTreeSet<(i64, i64, usize)> = BTreeSet::new();
    assert(set@ =~= boundary_set(nvtx@, 0, runtime@, 0, keys, pid));
    for r in 0..nvtx.len()
        invariant
            keyed::<(i64, i64, usize)>(),
            set@ == boundary_set(nvtx@, r as int, runtime@, 0, keys, pid),
    {
        if nvtx[r].pid == pid && nvtx[r].start < nvtx[r].end {
            set.insert((nvtx[r].start, NVTX_START, r));
            set.insert((nvtx[r].end, NVTX_END, r));
        }
        assert(set@ =~= boundary_set(nvtx@, r + 1, runtime@, 0, keys, pid));
    }
    for c in 0..runtime.len()
        invariant
            keyed::<(i64, i64, usize)>(),
            keyed::<(i64, i64)>(),
            groups(index@, keys),
            set@ == boundary_set(nvtx@, nvtx@.len() as int, runtime@, c as int, keys, pid),
    {
        let call_pid: i64 = source_pid(runtime[c].global_tid);
        if call_pid == pid && index.contains_key(&(pid, runtime[c].correlation)) {
            set.insert((runtime[c].start, API_START, c));
        }
        assert(set@ =~= boundary_set(nvtx@, nvtx@.len() as int, runtime@, c + 1, keys, pid));
    }
    ordered_vec(&set)
}

/// The starts of the calls with a key, in the order of the boundaries.
spec fn calls_in(boundaries: Seq<(i64, i64, usize)>, runtime: Seq<RuntimeCall>, key: (i64, i64)) -> Seq<(i64, usize)>
    decreases boundaries.len(),
{
    if boundaries.len() == 0 {
        Seq::empty()
    } else {
        let earlier = calls_in(boundaries.drop_last(), runtime, key);
        let b = boundaries.last();
        if b.1 == API_START && call_key(runtime[b.2 as int]) == key {
            earlier.push((b.0, b.2))
        } else {
            earlier
        }
    }
}

proof fn lemma_calls_in(boundaries: Seq<(i64, i64, usize)>, runtime: Seq<RuntimeCall>, key: (i64, i64))
    requires
        increasing(boundaries),
    ensures
        increasing(calls_in(boundaries, runtime, key)),
        forall|m: (i64, usize)| #[trigger]
            calls_in(boundaries, runtime, key).contains(m) <==> boundaries.contains((m.0, API_START, m.1)) && call_key(
                runtime[m.1 as int],
            ) == key,
    decreases boundaries.len(),
{
    lemma_boundary_keyed();
    lemma_moment_keyed();
    let found = calls_in(boundaries, runtime, key);
    if boundaries.len() > 0 {
        let rest = boundaries.drop_last();
        lemma_calls_in(rest, runtime, key);
        let earlier = calls_in(rest, runtime, key);
        let b = boundaries.last();
        assert(boundaries[boundaries.len() - 1] == b);
        assert forall|m: (i64, usize)| #[trigger] found.contains(m) <==> boundaries.contains(
            (m.0, API_START, m.1),
        ) && call_key(runtime[m.1 as int]) == key by {
            let x = (m.0, API_START, m.1);
            if found.contains(m) {
                let i = choose|i: int| 0 <= i < found.len() && found[i] == m;
                if i < earlier.len() {
                    assert(earlier[i] == m);
                    assert(earlier.contains(m));
                    let q = choose|q: int| 0 <= q < rest.len() && rest[q] == x;
                    assert(boundaries[q] == x);
                }
            }
            if boundaries.contains(x) && call_key(runtime[m.1 as int]) == key {
                let q = choose|q: int| 0 <= q < boundaries.len() && boundaries[q] == x;
                if q < rest.len() {
                    assert(rest[q] == x);
                    assert(earlier.contains(m));
                    let i = choose|i: int| 0 <= i < earlier.len() && earlier[i] == m;
                    assert(found[i] == m);
                } else {
                    assert(found[found.len() - 1] == m);
                }
            }
        }
        assert forall|i: int, j: int| 0 <= i < j < found.len() implies precedes(
            #[trigger] found[i],
            #[trigger] found[j],
        ) by {
            if j < earlier.len() {
                assert(precedes(earlier[i], earlier[j]));
            } else {
                assert(earlier.contains(earlier[i]));
                let x = (earlier[i].0, API_START, earlier[i].1);
                let q = choose|q: int| 0 <= q < rest.len() && rest[q] == x;
                assert(precedes(boundaries[q], boundaries[boundaries.len() - 1]));
            }
        }
    }
}

/// Once every boundary has been seen, the calls with the key of a kernel of the
/// process have all been met in order.
proof fn lemma_all_calls_met(
    boundaries: Seq<(i64, i64, usize)>,
    nvtx: Seq<NvtxRange>,
    runtime: Seq<RuntimeCall>,
    keys: Seq<(i64, i64)>,
    key: (i64, i64),
)
    requires
        lists(boundaries, all_boundaries(nvtx, runtime, keys, key.0)),
        keys.contains(key),
    ensures
        calls_in(boundaries, runtime, key) == ordered(call_moments(runtime, key)),
{
    lemma_calls_in(boundaries, runtime, key);
    lemma_moment_keyed();
    let found = calls_in(boundaries, runtime, key);
    let moments = call_moments(runtime, key);
    assert forall|m: (i64, usize)| found.to_set().contains(m) <==> moments.contains(m) by {
        let x = (m.0, API_START, m.1);
        assert(found.contains(m) <==> boundaries.contains(x) && call_key(runtime[m.1 as int]) == key);
        assert(boundaries.contains(x) <==> boundaries.to_set().contains(x));
    }
    assert(found.to_set() =~= moments);
    lemma_lists_is_ordered(found, moments);
}

proof fn lemma_names_at_push(nvtx: Seq<NvtxRange>, pid: i64, moments: Seq<(i64, usize)>, m: (i64, usize))
    ensures
        names_at(nvtx, pid, moments.push(m)) == names_at(nvtx, pid, moments) + open_names(nvtx, pid, m.0),
{
    let longer = moments.push(m);
    lemma_concat_same(
        moments.len() as int,
        |i: int| open_names(nvtx, pid, longer[i].0),
        |i: int| open_names(nvtx, pid, moments[i].0),
    );
}

/// The names of listed ranges are the names of the open ranges.
proof fn lemma_listed_names(nvtx: Seq<NvtxRange>, pid: i64, at: i64, active: Seq<usize>, n: int)
    requires
        0 <= n <= nvtx.len(),
        nvtx.len() <= usize::MAX,
        increasing(active),
        forall|r: usize| #[trigger]
            active.contains(r) <==> r < n && nvtx[r as int].pid == pid && open_at(nvtx[r as int], at),
    ensures
        Seq::new(active.len(), |a: int| nvtx[active[a] as int].name@) == concat(
            n,
            |r: int|
                if nvtx[r].pid == pid && open_at(nvtx[r], at) {
                    seq![nvtx[r].name@]
                } else {
                    Seq::empty()
                },
        ),
    decreases n,
{
    lemma_integers_keyed();
    let f = |r: int|
        if nvtx[r].pid == pid && open_at(nvtx[r], at) {
            seq![nvtx[r].name@]
        } else {
            Seq::empty()
        };
    let names = Seq::new(active.len(), |a: int| nvtx[active[a] as int].name@);
    if n == 0 {
        if active.len() > 0 {
            assert(active.contains(active[0]));
        }
        assert(names =~= concat(n, f));
    } else {
        let last = (n - 1) as usize;
        if nvtx[n - 1].pid == pid && open_at(nvtx[n - 1], at) {
            assert(active.contains(last));
            let a = choose|a: int| 0 <= a < active.len() && active[a] == last;
            assert(a == active.len() - 1) by {
                if a < active.len() - 1 {
                    assert(precedes(active[a], active[active.len() - 1]));
                    assert(active.contains(active[active.len() - 1]));
                }
            }
            let rest = active.drop_last();
            assert forall|r: usize| #[trigger] rest.contains(r) <==> r < n - 1 && nvtx[r as int].pid == pid && open_at(
                nvtx[r as int],
                at,
            ) by {
                if rest.contains(r) {
                    let k = choose|k: int| 0 <= k < rest.len() && rest[k] == r;
                    assert(active[k] == r);
                    assert(active.contains(r));
                    assert(precedes(active[k], active[a]));
                }
                if r < n - 1 && nvtx[r as int].pid == pid && open_at(nvtx[r as int], at) {
                    assert(active.contains(r));
                    let k = choose|k: int| 0 <= k < active.len() && active[k] == r;
                    assert(rest[k] == r);
                }
            }
            lemma_listed_names(nvtx, pid, at, rest, n - 1);
            assert(names =~= Seq::new(rest.len(), |a: int| nvtx[rest[a] as int].name@).push(nvtx[n - 1].name@));
            assert(names =~= concat(n, f));
        } else {
            assert forall|r: usize| #[trigger] active.contains(r) <==> r < n - 1 && nvtx[r as int].pid == pid
                && open_at(nvtx[r as int], at) by {}
            lemma_listed_names(nvtx, pid, at, active, n - 1);
            assert(names =~= concat(n, f));
        }
    }
}

proof fn lemma_envelope_join(
    old: Option<(i64, i64)>,
    mid: Option<(i64, i64)>,
    new: Option<(i64, i64)>,
    kernels: Seq<Kernel>,
    a: Set<int>,
    b: Set<int>,
)
    requires
        envelope(old, kernels, a, mid),
        envelope(mid, kernels, b, new),
    ensures
        envelope(old, kernels, a.union(b), new),
{
    let both = a.union(b);
    match new {
        None => {},
        Some((start, end)) => {
            if exists|k: int| #[trigger] b.contains(k) && kernels[k].start == start {
                let k = choose|k: int| #[trigger] b.contains(k) && kernels[k].start == start;
                assert(both.contains(k));
            } else if exists|k: int| #[trigger] a.contains(k) && kernels[k].start == start {
                let k = choose|k: int| #[trigger] a.contains(k) && kernels[k].start == start;
                assert(both.contains(k));
            }
            if exists|k: int| #[trigger] b.contains(k) && kernels[k].end == end {
                let k = choose|k: int| #[trigger] b.contains(k) && kernels[k].end == end;
                assert(both.contains(k));
            } else if exists|k: int| #[trigger] a.contains(k) && kernels[k].end == end {
                let k = choose|k: int| #[trigger] a.contains(k) && kernels[k].end == end;
                assert(both.contains(k));
            }
        },
    }
}

proof fn lemma_envelope_of_nothing(old: Option<(i64, i64)>, kernels: Seq<Kernel>, members: Set<int>)
    requires
        forall|k: int| !members.contains(k),
    ensures
        envelope(old, kernels, members, old),
{
}

/// The kernels among `members` that ran on the device.
spec fn hits(members: Seq<usize>, kernels: Seq<Kernel>, device: i64) -> Set<int> {
    Set::new(|k: int| 0 <= k < kernels.len() && members.contains(k as usize) && kernels[k].device == device)
}

spec fn listed(nvtx: Seq<NvtxRange>, active: Seq<usize>) -> Seq<Seq<char>> {
    Seq::new(active.len(), |a: int| nvtx[active[a] as int].name@)
}

/// What a call made while the `active` ranges are open does to the kernels it started.
spec fn call_noted(
    before: Seq<Kernel>,
    names: Seq<Seq<char>>,
    members: Seq<usize>,
    device: i64,
    after: Seq<Kernel>,
) -> bool {
    &&& after.len() == before.len()
    &&& forall|k: int|
        0 <= k < before.len() ==> {
            &&& #[trigger] after[k] == (Kernel { nvtx_regions: after[k].nvtx_regions, ..before[k] })
            &&& texts(after[k].nvtx_regions@) == (if hits(members, before, device).contains(k) {
                append_new(texts(before[k].nvtx_regions@), names)
            } else {
                texts(before[k].nvtx_regions@)
            })
        }
}

/// What it does to the ranges.
spec fn call_enveloped(
    before: Seq<NvtxRange>,
    active: Seq<usize>,
    kernels: Seq<Kernel>,
    members: Set<int>,
    device: i64,
    after: Seq<NvtxRange>,
) -> bool {
    &&& same_but_bounds(before, after)
    &&& forall|r: int|
        0 <= r < before.len() ==> if active.contains(r as usize) {
            &&& (#[trigger] after[r]).kernel_bounds@.remove(device) == before[r].kernel_bounds@.remove(device)
            &&& envelope(
                lookup(before[r].kernel_bounds@, device),
                kernels,
                members,
                lookup(after[r].kernel_bounds@, device),
            )
        } else {
            after[r].kernel_bounds@ == before[r].kernel_bounds@
        }
}

fn apply_call(
    kernels: &mut [Kernel],
    nvtx: &mut [NvtxRange],
    members: &Vec<usize>,
    active: &Vec<usize>,
    device: i64,
)
    requires
        forall|m: int| 0 <= m < members@.len() ==> #[trigger] members@[m] < old(kernels)@.len(),
        members@.no_duplicates(),
        forall|a: int| 0 <= a < active@.len() ==> #[trigger] active@[a] < old(nvtx)@.len(),
        active@.no_duplicates(),
    ensures
        call_noted(old(kernels)@, listed(old(nvtx)@, active@), members@, device, final(kernels)@),
        call_enveloped(
            old(nvtx)@,
            active@,
            old(kernels)@,
            hits(members@, old(kernels)@, device),
            device,
            final(nvtx)@,
        ),
{
    let ghost kernels0 = kernels@;
    let ghost nvtx0 = nvtx@;
    let ghost names = listed(nvtx0, active@);
    let _kernel_count: usize = kernels.len();
    let _range_count: usize = nvtx.len();
    proof {
        let none = members@.take(0);
        assert(call_noted(kernels0, names, none, device, kernels@));
        assert forall|r: int| 0 <= r < nvtx0.len() implies envelope(
            lookup(nvtx0[r].kernel_bounds@, device),
            kernels0,
            hits(none, kernels0, device),
            lookup(#[trigger] nvtx@[r].kernel_bounds@, device),
        ) by {
            lemma_envelope_of_nothing(
                lookup(nvtx0[r].kernel_bounds@, device),
                kernels0,
                hits(none, kernels0, device),
            );
        }
        assert(call_enveloped(nvtx0, active@, kernels0, hits(none, kernels0, device), device, nvtx@));
    }
    for m in 0..members.len()
        invariant
            kernels0.len() <= usize::MAX,
            nvtx0.len() <= usize::MAX,
            forall|m: int| 0 <= m < members@.len() ==> #[trigger] members@[m] < kernels0.len(),
            members@.no_duplicates(),
            forall|a: int| 0 <= a < active@.len() ==> #[trigger] active@[a] < nvtx0.len(),
            active@.no_duplicates(),
            names == listed(nvtx0, active@),
            call_noted(kernels0, names, members@.take(m as int), device, kernels@),
            call_enveloped(
                nvtx0,
                active@,
                kernels0,
                hits(members@.take(m as int), kernels0, device),
                device,
                nvtx@,
            ),
    {
        let kernel: usize = members[m];
        let ghost kernels1 = kernels@;
        let ghost nvtx1 = nvtx@;
        let ghost seen = members@.take(m as int);
        let ghost next = members@.take(m + 1);
        let ghost hit0 = hits(seen, kernels0, device);
        let ghost hit1 = hits(next, kernels0, device);
        proof {
            assert forall|k: usize| #[trigger] next.contains(k) <==> (seen.contains(k) || k == kernel) by {
                assert(next[m as int] == kernel);
                if next.contains(k) {
                    let j = choose|j: int| 0 <= j < next.len() && next[j] == k;
                    if j < m {
                        assert(seen[j] == k);
                    }
                }
                if seen.contains(k) {
                    let j = choose|j: int| 0 <= j < seen.len() && seen[j] == k;
                    assert(next[j] == k);
                }
            }
            assert(!seen.contains(kernel)) by {
                if seen.contains(kernel) {
                    let j = choose|j: int| 0 <= j < seen.len() && seen[j] == kernel;
                    assert(members@[j] == members@[m as int]);
                }
            }
        }
        assert(kernels1[kernel as int].device == kernels0[kernel as int].device);
        if kernels[kernel].device == device {
            let start: i64 = kernels[kernel].start;
            let end: i64 = kernels[kernel].end;
            note_regions(&mut kernels[kernel], nvtx, active);
            widen_bounds(nvtx, active, device, start, end);
            proof {
                assert(listed(nvtx1, active@) =~= names);
                assert(hit1 =~= hit0.insert(kernel as int));
                let one = Set::<int>::empty().insert(kernel as int);
                assert(hit1 =~= hit0.union(one));
                assert forall|r: int| 0 <= r < nvtx0.len() implies if active@.contains(r as usize) {
                    &&& (#[trigger] nvtx@[r]).kernel_bounds@.remove(device) == nvtx0[r].kernel_bounds@.remove(
                        device,
                    )
                    &&& envelope(
                        lookup(nvtx0[r].kernel_bounds@, device),
                        kernels0,
                        hit1,
                        lookup(nvtx@[r].kernel_bounds@, device),
                    )
                } else {
                    nvtx@[r].kernel_bounds@ == nvtx0[r].kernel_bounds@
                } by {
                    assert(nvtx1[r].kernel_bounds@ == nvtx1[r].kernel_bounds@);
                    if active@.contains(r as usize) {
                        assert(nvtx@[r].kernel_bounds@.remove(device) =~= nvtx1[r].kernel_bounds@.remove(device));
                        assert(one.contains(kernel as int));
                        assert(envelope(
                            lookup(nvtx1[r].kernel_bounds@, device),
                            kernels0,
                            one,
                            lookup(nvtx@[r].kernel_bounds@, device),
                        ));
                        lemma_envelope_join(
                            lookup(nvtx0[r].kernel_bounds@, device),
                            lookup(nvtx1[r].kernel_bounds@, device),
                            lookup(nvtx@[r].kernel_bounds@, device),
                            kernels0,
                            hit0,
                            one,
                        );
                    }
                }
                assert forall|k: int| 0 <= k < kernels0.len() implies {
                    &&& #[trigger] kernels@[k] == (Kernel { nvtx_regions: kernels@[k].nvtx_regions, ..kernels0[k] })
                    &&& texts(kernels@[k].nvtx_regions@) == (if hit1.contains(k) {
                        append_new(texts(kernels0[k].nvtx_regions@), names)
                    } else {
                        texts(kernels0[k].nvtx_regions@)
                    })
                } by {
                    assert(kernels1[k] == kernels1[k]);
                    assert(hit0.contains(k) || k == kernel <==> hit1.contains(k));
                }
            }
        } else {
            proof {
                assert(hit1 =~= hit0);
            }
        }
    }
    assert(members@.take(members@.len() as int) =~= members@);
}

spec fn in_group(kernels: Seq<Kernel>, k: int, pid: i64, device: i64) -> bool {
    0 <= k < kernels.len() && pid_of(kernels[k].global_pid) == pid && kernels[k].device == device
}

/// The kernels of a group that a range projects to by way of the calls among the boundaries.
spec fn members_seen(
    boundaries: Seq<(i64, i64, usize)>,
    kernels: Seq<Kernel>,
    runtime: Seq<RuntimeCall>,
    range: NvtxRange,
    pid: i64,
    device: i64,
) -> Set<int> {
    Set::new(
        |k: int|
            in_group(kernels, k, pid, device) && exists|c: usize|
                #![trigger runtime[c as int]]
                c < runtime.len() && boundaries.contains((runtime[c as int].start, API_START, c)) && projects(
                    kernels[k],
                    runtime[c as int],
                    range,
                ),
    )
}

/// The kernels after a part of the sweep over a group.
spec fn kernels_swept(
    before: Seq<Kernel>,
    boundaries: Seq<(i64, i64, usize)>,
    nvtx: Seq<NvtxRange>,
    runtime: Seq<RuntimeCall>,
    pid: i64,
    device: i64,
    after: Seq<Kernel>,
) -> bool {
    &&& after.len() == before.len()
    &&& forall|k: int|
        0 <= k < before.len() ==> {
            &&& #[trigger] after[k] == (Kernel { nvtx_regions: after[k].nvtx_regions, ..before[k] })
            &&& texts(after[k].nvtx_regions@) == (if in_group(before, k, pid, device) {
                append_new(
                    texts(before[k].nvtx_regions@),
                    names_at(nvtx, pid, calls_in(boundaries, runtime, kernel_key(before[k]))),
                )
            } else {
                texts(before[k].nvtx_regions@)
            })
        }
}

/// The ranges after a part of the sweep over a group.
spec fn ranges_swept(
    before: Seq<NvtxRange>,
    boundaries: Seq<(i64, i64, usize)>,
    kernels: Seq<Kernel>,
    runtime: Seq<RuntimeCall>,
    pid: i64,
    device: i64,
    after: Seq<NvtxRange>,
) -> bool {
    &&& same_but_bounds(before, after)
    &&& forall|r: int|
        0 <= r < before.len() ==> {
            &&& (#[trigger] after[r]).kernel_bounds@.remove(device) == before[r].kernel_bounds@.remove(device)
            &&& envelope(
                lookup(before[r].kernel_bounds@, device),
                kernels,
                members_seen(boundaries, kernels, runtime, before[r], pid, device),
                lookup(after[r].kernel_bounds@, device),
            )
        }
}

/// The open ranges after a part of the sweep.
spec fn open_after(
    active: Set<usize>,
    boundaries: Seq<(i64, i64, usize)>,
    nvtx: Seq<NvtxRange>,
    pid: i64,
) -> bool {
    forall|r: usize|
        #[trigger] active.contains(r) <==> {
            &&& r < nvtx.len()
            &&& sweeps(nvtx[r as int], pid)
            &&& boundaries.contains((nvtx[r as int].start, NVTX_START, r))
            &&& !boundaries.contains((nvtx[r as int].end, NVTX_END, r))
        }
}

proof fn lemma_prefix_contains(
    boundaries: Seq<(i64, i64, usize)>,
    p: int,
    all: Set<(i64, i64, usize)>,
    x: (i64, i64, usize),
)
    requires
        lists(boundaries, all),
        0 <= p < boundaries.len(),
        all.contains(x),
    ensures
        boundaries.take(p).contains(x) <==> precedes(x, boundaries[p]),
        boundaries.take(p + 1).contains(x) <==> (precedes(x, boundaries[p]) || x == boundaries[p]),
{
    lemma_boundary_keyed();
    lemma_order_laws::<(i64, i64, usize)>();
    lemma_trichotomy::<(i64, i64, usize)>();
    assert(boundaries.to_set().contains(x));
    let q = choose|q: int| 0 <= q < boundaries.len() && boundaries[q] == x;
    if q < p {
        assert(precedes(boundaries[q], boundaries[p]));
        assert(boundaries.take(p)[q] == x);
        assert(boundaries.take(p + 1)[q] == x);
    } else if q == p {
        assert(boundaries.take(p + 1)[q] == x);
        if boundaries.take(p).contains(x) {
            let z = choose|z: int| 0 <= z < p && boundaries.take(p)[z] == x;
            assert(precedes(boundaries[z], boundaries[p]));
        }
    } else {
        assert(precedes(boundaries[p], boundaries[q]));
        let longer = boundaries.take(p + 1);
        if longer.contains(x) {
            let z = choose|z: int| 0 <= z < longer.len() && longer[z] == x;
            assert(precedes(boundaries[z], boundaries[q]));
        }
        if boundaries.take(p).contains(x) {
            let z = choose|z: int| 0 <= z < p && boundaries.take(p)[z] == x;
            assert(precedes(boundaries[z], boundaries[q]));
        }
    }
}

/// Opening or closing one range keeps the open ranges in step with the boundaries.
proof fn lemma_open_step(
    active: Set<usize>,
    next: Set<usize>,
    boundaries: Seq<(i64, i64, usize)>,
    p: int,
    nvtx: Seq<NvtxRange>,
    runtime: Seq<RuntimeCall>,
    keys: Seq<(i64, i64)>,
    pid: i64,
)
    requires
        0 <= p < boundaries.len(),
        nvtx.len() <= usize::MAX,
        lists(boundaries, all_boundaries(nvtx, runtime, keys, pid)),
        open_after(active, boundaries.take(p), nvtx, pid),
        next == (if boundaries[p].1 == NVTX_START {
            active.insert(boundaries[p].2)
        } else if boundaries[p].1 == NVTX_END {
            active.remove(boundaries[p].2)
        } else {
            active
        }),
    ensures
        open_after(next, boundaries.take(p + 1), nvtx, pid),
{
    let all = all_boundaries(nvtx, runtime, keys, pid);
    let b = boundaries[p];
    assert(boundaries.to_set().contains(b));
    assert(all.contains(b));
    assert forall|r: usize|
        #[trigger] next.contains(r) <==> {
            &&& r < nvtx.len()
            &&& sweeps(nvtx[r as int], pid)
            &&& boundaries.take(p + 1).contains((nvtx[r as int].start, NVTX_START, r))
            &&& !boundaries.take(p + 1).contains((nvtx[r as int].end, NVTX_END, r))
        } by {
        assert(active.contains(r) || !active.contains(r));
        if r < nvtx.len() && sweeps(nvtx[r as int], pid) {
            let opens = (nvtx[r as int].start, NVTX_START, r);
            let closes = (nvtx[r as int].end, NVTX_END, r);
            lemma_prefix_contains(boundaries, p, all, opens);
            lemma_prefix_contains(boundaries, p, all, closes);
        }
    }
}

/// When a call starts, the open ranges are those open at its start.
proof fn lemma_open_at_call(
    active: Set<usize>,
    boundaries: Seq<(i64, i64, usize)>,
    p: int,
    nvtx: Seq<NvtxRange>,
    runtime: Seq<RuntimeCall>,
    keys: Seq<(i64, i64)>,
    pid: i64,
)
    requires
        0 <= p < boundaries.len(),
        boundaries[p].1 == API_START,
        lists(boundaries, all_boundaries(nvtx, runtime, keys, pid)),
        open_after(active, boundaries.take(p), nvtx, pid),
    ensures
        forall|r: usize| #[trigger]
            active.contains(r) <==> r < nvtx.len() && nvtx[r as int].pid == pid && open_at(
                nvtx[r as int],
                boundaries[p].0,
            ),
{
    let all = all_boundaries(nvtx, runtime, keys, pid);
    assert forall|r: usize| #[trigger]
        active.contains(r) <==> r < nvtx.len() && nvtx[r as int].pid == pid && open_at(
            nvtx[r as int],
            boundaries[p].0,
        ) by {
        if r < nvtx.len() && sweeps(nvtx[r as int], pid) {
            lemma_prefix_contains(boundaries, p, all, (nvtx[r as int].start, NVTX_START, r));
            lemma_prefix_contains(boundaries, p, all, (nvtx[r as int].end, NVTX_END, r));
        }
    }
}

/// Sweeps over the calls of a process that started kernels on a device.
fn project_group(
    kernels: &mut [Kernel],
    nvtx: &mut [NvtxRange],
    runtime: &[RuntimeCall],
    index: &BTreeMap<(i64, i64), Vec<usize>>,
    pid: i64,
    device: i64,
)
    requires
        groups(index@, kernel_keys(old(kernels)@)),
    ensures
        final(kernels)@.len() == old(kernels)@.len(),
        forall|k: int|
            0 <= k < old(kernels)@.len() ==> {
                &&& #[trigger] final(kernels)@[k] == (Kernel {
                    nvtx_regions: final(kernels)@[k].nvtx_regions,
                    ..old(kernels)@[k]
                })
                &&& texts(final(kernels)@[k].nvtx_regions@) == (if in_group(old(kernels)@, k, pid, device) {
                    append_new(
                        texts(old(kernels)@[k].nvtx_regions@),
                        region_names(old(kernels)@[k], runtime@, old(nvtx)@),
                    )
                } else {
                    texts(old(kernels)@[k].nvtx_regions@)
                })
            },
        same_but_bounds(old(nvtx)@, final(nvtx)@),
        forall|r: int|
            0 <= r < old(nvtx)@.len() ==> {
                &&& (#[trigger] final(nvtx)@[r]).kernel_bounds@.remove(device)
                    == old(nvtx)@[r].kernel_bounds@.remove(device)
                &&& envelope(
                    lookup(old(nvtx)@[r].kernel_bounds@, device),
                    old(kernels)@,
                    Set::new(
                        |k: int|
                            in_group(old(kernels)@, k, pid, device) && projected(
                                old(kernels)@[k],
                                runtime@,
                                old(nvtx)@[r],
                            ),
                    ),
                    lookup(final(nvtx)@[r].kernel_bounds@, device),
                )
            },
{
    let ghost kernels0 = kernels@;
    let ghost nvtx0 = nvtx@;
    let ghost keys = kernel_keys(kernels0);
    let boundaries = collect_boundaries(nvtx, runtime, index, pid, Ghost(keys));
    let ghost all = all_boundaries(nvtx0, runtime@, keys, pid);
    let _kernel_count: usize = kernels.len();
    let _range_count: usize = nvtx.len();
    let _call_count: usize = runtime.len();
    let mut active: BTreeSet<usize> = BTreeSet::new();
    proof {
        lemma_integers_keyed();
        lemma_pair_keyed();
        let none = boundaries@.take(0);
        assert(open_after(active@, none, nvtx0, pid));
        assert forall|k: int| 0 <= k < kernels0.len() implies #[trigger] names_at(
            nvtx0,
            pid,
            calls_in(none, runtime@, kernel_key(kernels0[k])),
        ) == Seq::<Seq<char>>::empty() by {}
        assert(kernels_swept(kernels0, none, nvtx0, runtime@, pid, device, kernels@));
        assert forall|r: int| 0 <= r < nvtx0.len() implies envelope(
            lookup(nvtx0[r].kernel_bounds@, device),
            kernels0,
            members_seen(none, kernels0, runtime@, nvtx0[r], pid, device),
            lookup(#[trigger] nvtx@[r].kernel_bounds@, device),
        ) by {
            lemma_envelope_of_nothing(
                lookup(nvtx0[r].kernel_bounds@, device),
                kernels0,
                members_seen(none, kernels0, runtime@, nvtx0[r], pid, device),
            );
        }
        assert(ranges_swept(nvtx0, none, kernels0, runtime@, pid, device, nvtx@));
    }
    for p in 0..boundaries.len()
        invariant
            keyed::<usize>(),
            keyed::<(i64, i64)>(),
            kernels0.len() <= usize::MAX,
            nvtx0.len() <= usize::MAX,
            runtime@.len() <= usize::MAX,
            keys == kernel_keys(kernels0),
            groups(index@, keys),
            all == all_boundaries(nvtx0, runtime@, keys, pid),
            lists(boundaries@, all),
            open_after(active@, boundaries@.take(p as int), nvtx0, pid),
            kernels_swept(kernels0, boundaries@.take(p as int), nvtx0, runtime@, pid, device, kernels@),
            ranges_swept(nvtx0, boundaries@.take(p as int), kernels0, runtime@, pid, device, nvtx@),
    {
        let (time, kind, subject) = boundaries[p];
        let ghost seen = boundaries@.take(p as int);
        let ghost next = boundaries@.take(p + 1);
        let ghost active0 = active@;
        proof {
            assert(next.drop_last() =~= seen);
            assert(next.last() == boundaries@[p as int]);
            assert(boundaries@.to_set().contains(boundaries@[p as int]));
            assert(all.contains(boundaries@[p as int]));
        }
        if kind == NVTX_START {
            active.insert(subject);
        } else if kind == NVTX_END {
            active.remove(&subject);
        } else {
            let key = (pid, runtime[subject].correlation);
            let ghost call = runtime@[subject as int];
            assert(call_key(call) == key);
            proof {
                lemma_open_at_call(active@, boundaries@, p as int, nvtx0, runtime@, keys, pid);
                lemma_positions(keys, key);
            }
            let open = ordered_vec(&active);
            let ghost names = open_names(nvtx0, pid, time);
            let ghost kernels1 = kernels@;
            let ghost nvtx1 = nvtx@;
            proof {
                assert forall|r: usize| #[trigger] open@.contains(r) <==> active@.contains(r) by {
                    assert(open@.contains(r) <==> open@.to_set().contains(r));
                }
                assert forall|a: int| 0 <= a < open@.len() implies #[trigger] open@[a] < nvtx0.len() by {
                    assert(open@.contains(open@[a]));
                }
                lemma_listed_names(nvtx0, pid, time, open@, nvtx0.len() as int);
                assert(listed(nvtx1, open@) =~= listed(nvtx0, open@));
                assert(listed(nvtx1, open@) == names);
            }
            match index.get(&key) {
                Some(members) => {
                    let ghost found = positions(keys, key);
                    proof {
                        assert forall|m: int| 0 <= m < members@.len() implies #[trigger] members@[m] == found[m]
                            && members@[m] < kernels0.len() by {}
                        assert forall|i: int, j: int| 0 <= i < members@.len() && 0 <= j < members@.len() && i != j
                            implies members@[i] != members@[j] by {
                            assert(members@[i] == found[i] && members@[j] == found[j]);
                            if i < j {
                                assert(found[i] < found[j]);
                            } else {
                                assert(found[j] < found[i]);
                            }
                        }
                    }
                    apply_call(kernels, nvtx, members, &open, device);
                    proof {
                        let hit = hits(members@, kernels1, device);
                        assert forall|k: int| #[trigger] hit.contains(k) <==> in_group(kernels0, k, pid, device)
                            && kernel_key(kernels0[k]) == key by {
                            if 0 <= k < kernels0.len() {
                                assert(kernels1[k] == (Kernel {
                                    nvtx_regions: kernels1[k].nvtx_regions,
                                    ..kernels0[k]
                                }));
                                assert(keys[k] == kernel_key(kernels0[k]));
                                if kernel_key(kernels0[k]) == key {
                                    assert(found.contains(k));
                                    let i = choose|i: int| 0 <= i < found.len() && found[i] == k;
                                    assert(members@[i] == k);
                                }
                                if members@.contains(k as usize) {
                                    let i = choose|i: int| 0 <= i < members@.len() && members@[i] == k as usize;
                                    assert(found[i] == k);
                                }
                            }
                        }
                        lemma_call_swept_kernels(
                            kernels0,
                            kernels1,
                            kernels@,
                            seen,
                            next,
                            nvtx0,
                            runtime@,
                            pid,
                            device,
                            members@,
                        );
                        lemma_call_swept_ranges(
                            nvtx0,
                            nvtx1,
                            nvtx@,
                            seen,
                            next,
                            kernels0,
                            kernels1,
                            runtime@,
                            pid,
                            device,
                            open@,
                            hit,
                        );
                    }
                },
                None => {
                    assert(keys.contains(key));
                },
            }
        }
        proof {
            lemma_open_step(active0, active@, boundaries@, p as int, nvtx0, runtime@, keys, pid);
            if kind != API_START {
                lemma_quiet_step(nvtx0, nvtx@, seen, next, kernels0, runtime@, pid, device);
            }
        }
    }
    proof {
        assert(boundaries@.take(boundaries@.len() as int) =~= boundaries@);
        assert forall|k: int| in_group(kernels0, k, pid, device) implies region_names(
            #[trigger] kernels0[k],
            runtime@,
            nvtx0,
        ) == names_at(nvtx0, pid, calls_in(boundaries@, runtime@, kernel_key(kernels0[k]))) by {
            assert(keys[k] == kernel_key(kernels0[k]));
            lemma_all_calls_met(boundaries@, nvtx0, runtime@, keys, kernel_key(kernels0[k]));
        }
        assert forall|r: int| 0 <= r < nvtx0.len() implies #[trigger] members_seen(
            boundaries@,
            kernels0,
            runtime@,
            nvtx0[r],
            pid,
            device,
        ) == Set::new(
            |k: int| in_group(kernels0, k, pid, device) && projected(kernels0[k], runtime@, nvtx0[r]),
        ) by {
            let a = members_seen(boundaries@, kernels0, runtime@, nvtx0[r], pid, device);
            let b = Set::new(
                |k: int| in_group(kernels0, k, pid, device) && projected(kernels0[k], runtime@, nvtx0[r]),
            );
            assert forall|k: int| a.contains(k) <==> b.contains(k) by {
                if b.contains(k) {
                    let c = choose|c: int|
                        0 <= c < runtime@.len() && projects(kernels0[k], #[trigger] runtime@[c], nvtx0[r]);
                    let x = (runtime@[c].start, API_START, c as usize);
                    assert(keys[k] == kernel_key(kernels0[k]));
                    assert(all.contains(x));
                    assert(boundaries@.to_set().contains(x));
                    assert(boundaries@.contains((runtime@[(c as usize) as int].start, API_START, c as usize)));
                }
            }
            assert(a =~= b);
        }
    }
}

proof fn lemma_call_swept_kernels(
    before: Seq<Kernel>,
    mid: Seq<Kernel>,
    after: Seq<Kernel>,
    seen: Seq<(i64, i64, usize)>,
    next: Seq<(i64, i64, usize)>,
    nvtx: Seq<NvtxRange>,
    runtime: Seq<RuntimeCall>,
    pid: i64,
    device: i64,
    members: Seq<usize>,
)
    requires
        next.len() > 0,
        seen == next.drop_last(),
        next.last().1 == API_START,
        call_key(runtime[next.last().2 as int]).0 == pid,
        kernels_swept(before, seen, nvtx, runtime, pid, device, mid),
        call_noted(mid, open_names(nvtx, pid, next.last().0), members, device, after),
        forall|k: int| #[trigger]
            hits(members, mid, device).contains(k) <==> in_group(before, k, pid, device) && kernel_key(before[k])
                == call_key(runtime[next.last().2 as int]),
    ensures
        kernels_swept(before, next, nvtx, runtime, pid, device, after),
{
    let b = next.last();
    assert forall|k: int| 0 <= k < before.len() implies {
        &&& #[trigger] after[k] == (Kernel { nvtx_regions: after[k].nvtx_regions, ..before[k] })
        &&& texts(after[k].nvtx_regions@) == (if in_group(before, k, pid, device) {
            append_new(
                texts(before[k].nvtx_regions@),
                names_at(nvtx, pid, calls_in(next, runtime, kernel_key(before[k]))),
            )
        } else {
            texts(before[k].nvtx_regions@)
        })
    } by {
        assert(mid[k] == (Kernel { nvtx_regions: mid[k].nvtx_regions, ..before[k] }));
        let earlier = calls_in(seen, runtime, kernel_key(before[k]));
        if hits(members, mid, device).contains(k) {
            lemma_names_at_push(nvtx, pid, earlier, (b.0, b.2));
            lemma_append_new_concat(
                texts(before[k].nvtx_regions@),
                names_at(nvtx, pid, earlier),
                open_names(nvtx, pid, b.0),
            );
        }
    }
}

proof fn lemma_call_swept_ranges(
    before: Seq<NvtxRange>,
    mid: Seq<NvtxRange>,
    after: Seq<NvtxRange>,
    seen: Seq<(i64, i64, usize)>,
    next: Seq<(i64, i64, usize)>,
    kernels: Seq<Kernel>,
    kernels1: Seq<Kernel>,
    runtime: Seq<RuntimeCall>,
    pid: i64,
    device: i64,
    open: Seq<usize>,
    hit: Set<int>,
)
    requires
        next.len() > 0,
        before.len() <= usize::MAX,
        seen == next.drop_last(),
        next.last().1 == API_START,
        next.last().2 < runtime.len(),
        next.last().0 == runtime[next.last().2 as int].start,
        kernels1.len() == kernels.len(),
        forall|k: int|
            0 <= k < kernels.len() ==> #[trigger] kernels1[k] == (Kernel {
                nvtx_regions: kernels1[k].nvtx_regions,
                ..kernels[k]
            }),
        ranges_swept(before, seen, kernels, runtime, pid, device, mid),
        call_enveloped(mid, open, kernels1, hit, device, after),
        forall|k: int| #[trigger]
            hit.contains(k) <==> in_group(kernels, k, pid, device) && kernel_key(kernels[k]) == call_key(
                runtime[next.last().2 as int],
            ),
        forall|r: usize| #[trigger]
            open.contains(r) <==> r < before.len() && before[r as int].pid == pid && open_at(
                before[r as int],
                next.last().0,
            ),
    ensures
        ranges_swept(before, next, kernels, runtime, pid, device, after),
{
    let b = next.last();
    let call = runtime[b.2 as int];
    assert forall|x: (i64, i64, usize)| #[trigger] next.contains(x) <==> (seen.contains(x) || x == b) by {
        assert(next[next.len() - 1] == b);
        if next.contains(x) {
            let i = choose|i: int| 0 <= i < next.len() && next[i] == x;
            if i < seen.len() {
                assert(seen[i] == x);
            }
        }
        if seen.contains(x) {
            let i = choose|i: int| 0 <= i < seen.len() && seen[i] == x;
            assert(next[i] == x);
        }
    }
    assert forall|r: int| 0 <= r < before.len() implies {
        &&& (#[trigger] after[r]).kernel_bounds@.remove(device) == before[r].kernel_bounds@.remove(device)
        &&& envelope(
            lookup(before[r].kernel_bounds@, device),
            kernels,
            members_seen(next, kernels, runtime, before[r], pid, device),
            lookup(after[r].kernel_bounds@, device),
        )
    } by {
        let m0 = members_seen(seen, kernels, runtime, before[r], pid, device);
        let m1 = members_seen(next, kernels, runtime, before[r], pid, device);
        assert(mid[r].kernel_bounds@.remove(device) == before[r].kernel_bounds@.remove(device));
        let is_open = open.contains(r as usize);
        assert forall|k: int| m1.contains(k) <==> (m0.contains(k) || (is_open && hit.contains(k))) by {
            if m1.contains(k) {
                let c = choose|c: usize|
                    #![trigger runtime[c as int]]
                    c < runtime.len() && next.contains((runtime[c as int].start, API_START, c)) && projects(
                        kernels[k],
                        runtime[c as int],
                        before[r],
                    );
                if !seen.contains((runtime[c as int].start, API_START, c)) {
                    assert(c == b.2);
                }
            }
            if m0.contains(k) {
                let c = choose|c: usize|
                    #![trigger runtime[c as int]]
                    c < runtime.len() && seen.contains((runtime[c as int].start, API_START, c)) && projects(
                        kernels[k],
                        runtime[c as int],
                        before[r],
                    );
                assert(next.contains((runtime[c as int].start, API_START, c)));
            }
            if is_open && hit.contains(k) {
                assert(next.contains((call.start, API_START, b.2)));
                assert(projects(kernels[k], call, before[r]));
            }
        }
        if is_open {
            assert(m1 =~= m0.union(hit));
            lemma_envelope_same_kernels(
                lookup(mid[r].kernel_bounds@, device),
                kernels1,
                kernels,
                hit,
                lookup(after[r].kernel_bounds@, device),
            );
            lemma_envelope_join(
                lookup(before[r].kernel_bounds@, device),
                lookup(mid[r].kernel_bounds@, device),
                lookup(after[r].kernel_bounds@, device),
                kernels,
                m0,
                hit,
            );
        } else {
            assert(m1 =~= m0);
        }
    }
}

proof fn lemma_envelope_same_kernels(
    old: Option<(i64, i64)>,
    a: Seq<Kernel>,
    b: Seq<Kernel>,
    members: Set<int>,
    new: Option<(i64, i64)>,
)
    requires
        envelope(old, a, members, new),
        forall|k: int| #[trigger] members.contains(k) ==> a[k].start == b[k].start && a[k].end == b[k].end,
    ensures
        envelope(old, b, members, new),
{
}

/// A boundary of a range changes no kernel and no bounds.
proof fn lemma_quiet_step(
    before: Seq<NvtxRange>,
    after: Seq<NvtxRange>,
    seen: Seq<(i64, i64, usize)>,
    next: Seq<(i64, i64, usize)>,
    kernels: Seq<Kernel>,
    runtime: Seq<RuntimeCall>,
    pid: i64,
    device: i64,
)
    requires
        next.len() > 0,
        seen == next.drop_last(),
        next.last().1 != API_START,
        ranges_swept(before, seen, kernels, runtime, pid, device, after),
    ensures
        ranges_swept(before, next, kernels, runtime, pid, device, after),
{
    assert forall|c: usize|
        #![trigger runtime[c as int]]
        next.contains((runtime[c as int].start, API_START, c)) <==> seen.contains(
            (runtime[c as int].start, API_START, c),
        ) by {
        let x = (runtime[c as int].start, API_START, c);
        if next.contains(x) {
            let i = choose|i: int| 0 <= i < next.len() && next[i] == x;
            assert(seen[i] == x);
        }
        if seen.contains(x) {
            let i = choose|i: int| 0 <= i < seen.len() && seen[i] == x;
            assert(next[i] == x);
        }
    }
    assert forall|r: int| 0 <= r < before.len() implies #[trigger] members_seen(
        next,
        kernels,
        runtime,
        before[r],
        pid,
        device,
    ) == members_seen(seen, kernels, runtime, before[r], pid, device) by {
        assert(members_seen(next, kernels, runtime, before[r], pid, device) =~= members_seen(
            seen,
            kernels,
            runtime,
            before[r],
            pid,
            device,
        ));
    }
}

proof fn lemma_region_names_alike(
    kernel: Kernel,
    kernel1: Kernel,
    runtime: Seq<RuntimeCall>,
    nvtx: Seq<NvtxRange>,
    nvtx1: Seq<NvtxRange>,
)
    requires
        kernel1 == (Kernel { nvtx_regions: kernel1.nvtx_regions, ..kernel }),
        same_but_bounds(nvtx, nvtx1),
    ensures
        region_names(kernel1, runtime, nvtx1) == region_names(kernel, runtime, nvtx),
{
    let pid = pid_of(kernel.global_pid);
    let moments = ordered(call_moments(runtime, kernel_key(kernel)));
    assert forall|at: i64| #[trigger] open_names(nvtx1, pid, at) == open_names(nvtx, pid, at) by {
        let f = |r: int|
            if nvtx1[r].pid == pid && open_at(nvtx1[r], at) {
                seq![nvtx1[r].name@]
            } else {
                Seq::empty()
            };
        let g = |r: int|
            if nvtx[r].pid == pid && open_at(nvtx[r], at) {
                seq![nvtx[r].name@]
            } else {
                Seq::empty()
            };
        assert forall|r: int| 0 <= r < nvtx.len() implies #[trigger] f(r) == g(r) by {
            assert(nvtx1[r] == (NvtxRange { kernel_bounds: nvtx1[r].kernel_bounds, ..nvtx[r] }));
        }
        lemma_concat_same(nvtx.len() as int, f, g);
    }
    lemma_concat_same(
        moments.len() as int,
        |i: int| open_names(nvtx1, pid, moments[i].0),
        |i: int| open_names(nvtx, pid, moments[i].0),
    );
}

/// The kernels once the groups in `done` have been swept.
spec fn kernels_done(
    before: Seq<Kernel>,
    nvtx: Seq<NvtxRange>,
    runtime: Seq<RuntimeCall>,
    done: Seq<(i64, i64)>,
    after: Seq<Kernel>,
) -> bool {
    &&& after.len() == before.len()
    &&& forall|k: int|
        0 <= k < before.len() ==> {
            &&& #[trigger] after[k] == (Kernel { nvtx_regions: after[k].nvtx_regions, ..before[k] })
            &&& texts(after[k].nvtx_regions@) == (if done.contains(
                (pid_of(before[k].global_pid), before[k].device),
            ) {
                append_new(texts(before[k].nvtx_regions@), region_names(before[k], runtime, nvtx))
            } else {
                texts(before[k].nvtx_regions@)
            })
        }
}

/// The ranges once the groups in `done` have been swept.
spec fn ranges_done(
    before: Seq<NvtxRange>,
    kernels: Seq<Kernel>,
    runtime: Seq<RuntimeCall>,
    done: Seq<(i64, i64)>,
    after: Seq<NvtxRange>,
) -> bool {
    &&& same_but_bounds(before, after)
    &&& forall|r: int, d: i64|
        #![trigger lookup(after[r].kernel_bounds@, d)]
        0 <= r < before.len() ==> if done.contains((before[r].pid, d)) {
            bounds_settled(before[r], kernels, runtime, after[r], d)
        } else {
            lookup(after[r].kernel_bounds@, d) == lookup(before[r].kernel_bounds@, d)
        }
}

/// Projects every range to the kernels that calls made inside it started: the range
/// gets the envelope of those kernels on each device, the kernels get its name.
/// A call counts for every range of its process, whatever thread made it.
pub fn project_nvtx_to_kernels(kernels: &mut [Kernel], nvtx: &mut [NvtxRange], runtime: &[RuntimeCall])
    ensures
        regions_projected(old(kernels)@, old(nvtx)@, runtime@, final(kernels)@),
        bounds_projected(old(nvtx)@, old(kernels)@, runtime@, final(nvtx)@),
{
    let ghost kernels0 = kernels@;
    let ghost nvtx0 = nvtx@;
    let mut keys: Vec<(i64, i64)> = Vec::new();
    let mut group_set: BTreeSet<(i64, i64)> = BTreeSet::new();
    proof {
        lemma_pair_keyed();
    }
    for k in 0..kernels.len()
        invariant
            keyed::<(i64, i64)>(),
            keys@.len() == k,
            forall|i: int| 0 <= i < k ==> #[trigger] keys@[i] == kernel_key(kernels@[i]),
            forall|i: int|
                0 <= i < k ==> group_set@.contains(
                    (pid_of((#[trigger] kernels@[i]).global_pid), kernels@[i].device),
                ),
    {
        let pid: i64 = source_pid(kernels[k].global_pid);
        keys.push((pid, kernels[k].correlation));
        group_set.insert((pid, kernels[k].device));
    }
    assert(keys@ =~= kernel_keys(kernels@));
    let index = group_by_key(&keys);
    let group_list = ordered_vec(&group_set);
    proof {
        assert(ranges_done(nvtx0, kernels0, runtime@, group_list@.take(0), nvtx@));
    }
    for g in 0..group_list.len()
        invariant
            group_list@.no_duplicates(),
            kernels@.len() == kernels0.len(),
            groups(index@, kernel_keys(kernels0)),
            kernels_done(kernels0, nvtx0, runtime@, group_list@.take(g as int), kernels@),
            ranges_done(nvtx0, kernels0, runtime@, group_list@.take(g as int), nvtx@),
    {
        let (pid, device) = group_list[g];
        let ghost kernels1 = kernels@;
        let ghost nvtx1 = nvtx@;
        let ghost done = group_list@.take(g as int);
        let ghost next = group_list@.take(g + 1);
        assert(kernel_keys(kernels1) =~= kernel_keys(kernels0));
        project_group(kernels, nvtx, runtime, &index, pid, device);
        proof {
            assert forall|x: (i64, i64)| #[trigger] next.contains(x) <==> (done.contains(x) || x == (pid, device)) by {
                assert(next[g as int] == (pid, device));
                if next.contains(x) {
                    let i = choose|i: int| 0 <= i < next.len() && next[i] == x;
                    if i < g {
                        assert(done[i] == x);
                    }
                }
                if done.contains(x) {
                    let i = choose|i: int| 0 <= i < done.len() && done[i] == x;
                    assert(next[i] == x);
                }
            }
            assert(!done.contains((pid, device))) by {
                if done.contains((pid, device)) {
                    let i = choose|i: int| 0 <= i < done.len() && done[i] == (pid, device);
                    assert(group_list@[i] == group_list@[g as int]);
                }
            }
            assert forall|k: int| 0 <= k < kernels0.len() implies {
                &&& #[trigger] kernels@[k] == (Kernel { nvtx_regions: kernels@[k].nvtx_regions, ..kernels0[k] })
                &&& texts(kernels@[k].nvtx_regions@) == (if next.contains(
                    (pid_of(kernels0[k].global_pid), kernels0[k].device),
                ) {
                    append_new(texts(kernels0[k].nvtx_regions@), region_names(kernels0[k], runtime@, nvtx0))
                } else {
                    texts(kernels0[k].nvtx_regions@)
                })
            } by {
                assert(kernels1[k] == (Kernel { nvtx_regions: kernels1[k].nvtx_regions, ..kernels0[k] }));
                lemma_region_names_alike(kernels0[k], kernels1[k], runtime@, nvtx0, nvtx1);
            }
            assert forall|r: int, d: i64|
                #![trigger lookup(nvtx@[r].kernel_bounds@, d)]
                0 <= r < nvtx0.len() implies if next.contains((nvtx0[r].pid, d)) {
                bounds_settled(nvtx0[r], kernels0, runtime@, nvtx@[r], d)
            } else {
                lookup(nvtx@[r].kernel_bounds@, d) == lookup(nvtx0[r].kernel_bounds@, d)
            } by {
                let before = lookup(nvtx1[r].kernel_bounds@, d);
                let after = lookup(nvtx@[r].kernel_bounds@, d);
                assert(nvtx1[r] == (NvtxRange { kernel_bounds: nvtx1[r].kernel_bounds, ..nvtx0[r] }));
                if d != device {
                    assert(nvtx@[r].kernel_bounds@.remove(device).contains_key(d) == nvtx1[r].kernel_bounds@.remove(
                        device,
                    ).contains_key(d));
                    assert(nvtx@[r].kernel_bounds@.contains_key(d) ==> nvtx@[r].kernel_bounds@.remove(device)[d]
                        == nvtx1[r].kernel_bounds@.remove(device)[d]);
                    assert(after == before);
                } else {
                    let swept = Set::new(
                        |k: int| in_group(kernels1, k, pid, device) && projected(kernels1[k], runtime@, nvtx1[r]),
                    );
                    assert(envelope(before, kernels1, swept, after));
                    if nvtx0[r].pid == pid {
                        let wanted = projected_kernels(kernels0, runtime@, nvtx0[r], d);
                        assert forall|k: int| swept.contains(k) <==> wanted.contains(k) by {
                            if 0 <= k < kernels0.len() {
                                assert(kernels1[k] == (Kernel {
                                    nvtx_regions: kernels1[k].nvtx_regions,
                                    ..kernels0[k]
                                }));
                                lemma_projected_alike(kernels0[k], kernels1[k], runtime@, nvtx0[r], nvtx1[r]);
                            }
                        }
                        assert(swept =~= wanted);
                        assert forall|k: int| #[trigger] wanted.contains(k) implies kernels1[k].start
                            == kernels0[k].start && kernels1[k].end == kernels0[k].end by {
                            assert(kernels1[k] == (Kernel {
                                nvtx_regions: kernels1[k].nvtx_regions,
                                ..kernels0[k]
                            }));
                        }
                        lemma_envelope_same_kernels(before, kernels1, kernels0, wanted, after);
                    } else {
                        assert forall|k: int| !swept.contains(k) by {
                            if swept.contains(k) {
                                let c = choose|c: int|
                                    0 <= c < runtime@.len() && projects(
                                        kernels1[k],
                                        #[trigger] runtime@[c],
                                        nvtx1[r],
                                    );
                                assert(nvtx1[r].pid == pid);
                            }
                        }
                        assert(after == before);
                    }
                }
            }
        }
    }
    proof {
        let done = group_list@;
        assert(group_list@.take(group_list@.len() as int) =~= done);
        assert forall|k: int| 0 <= k < kernels0.len() implies #[trigger] done.contains(
            (pid_of(kernels0[k].global_pid), kernels0[k].device),
        ) by {
            assert(done.to_set().contains((pid_of(kernels0[k].global_pid), kernels0[k].device)));
        }
        assert forall|r: int, device: i64| 0 <= r < nvtx0.len() implies #[trigger] bounds_settled(
            nvtx0[r],
            kernels0,
            runtime@,
            nvtx@[r],
            device,
        ) by {
            let wanted = projected_kernels(kernels0, runtime@, nvtx0[r], device);
            let after = lookup(nvtx@[r].kernel_bounds@, device);
            if !done.contains((nvtx0[r].pid, device)) {
                assert forall|k: int| !wanted.contains(k) by {
                    if wanted.contains(k) {
                        let c = choose|c: int|
                            0 <= c < runtime@.len() && projects(kernels0[k], #[trigger] runtime@[c], nvtx0[r]);
                        assert(nvtx0[r].pid == pid_of(kernels0[k].global_pid));
                        assert(done.contains((pid_of(kernels0[k].global_pid), kernels0[k].device)));
                    }
                }
                lemma_envelope_of_nothing(lookup(nvtx0[r].kernel_bounds@, device), kernels0, wanted);
            }
        }
    }
}

proof fn lemma_projected_alike(
    kernel: Kernel,
    kernel1: Kernel,
    runtime: Seq<RuntimeCall>,
    range: NvtxRange,
    range1: NvtxRange,
)
    requires
        kernel1 == (Kernel { nvtx_regions: kernel1.nvtx_regions, ..kernel }),
        range1 == (NvtxRange { kernel_bounds: range1.kernel_bounds, ..range }),
    ensures
        projected(kernel1, runtime, range1) <==> projected(kernel, runtime, range),
        projected(kernel, runtime, range) ==> range.pid == pid_of(kernel.global_pid),
{
    if projected(kernel1, runtime, range1) {
        let c = choose|c: int| 0 <= c < runtime.len() && projects(kernel1, #[trigger] runtime[c], range1);
        assert(projects(kernel, runtime[c], range));
    }
    if projected(kernel, runtime, range) {
        let c = choose|c: int| 0 <= c < runtime.len() && projects(kernel, #[trigger] runtime[c], range);
        assert(projects(kernel1, runtime[c], range1));
    }
}

} // verus!
