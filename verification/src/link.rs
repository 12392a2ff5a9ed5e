//! Links GPU activities to the CUDA Runtime calls that started them and names events.
use crate::model::{pid_of, source_pid, source_tid, tid_of, Kernel, Memcpy, RuntimeCall};
use crate::order::{keyed, lemma_pair_keyed, lemma_quad_keyed};
use crate::seqs::{count_where, lemma_count_bound, lemma_occurrences_bound, lemma_positions, occurrences, positions};
use crate::text::{append_count, append_decimal, copied, decimal, opt_text, same_text, starts_with};
use std::collections::BTreeMap;
use vstd::prelude::*;
use vstd::string::StringExecFns;

verus! {

/// The process and correlation number that a call shares with what it started.
pub open spec fn call_key(call: RuntimeCall) -> (i64, i64) {
    (pid_of(call.global_tid), call.correlation)
}

pub open spec fn kernel_key(kernel: Kernel) -> (i64, i64) {
    (pid_of(kernel.global_pid), kernel.correlation)
}

pub open spec fn copy_key(copy: Memcpy) -> (i64, i64) {
    (pid_of(copy.global_pid), copy.correlation)
}

pub open spec fn matches_key(runtime: Seq<RuntimeCall>, i: int, key: (i64, i64)) -> bool {
    0 <= i < runtime.len() && call_key(runtime[i]) == key
}

pub open spec fn distance(a: i64, b: i64) -> int {
    if a >= b {
        a - b
    } else {
        b - a
    }
}

/// A call starting at `a` explains an activity starting at `start` better than one
/// starting at `b`: calls that start after the activity come last, then the nearer
/// start wins.
pub open spec fn better(a: i64, b: i64, start: i64) -> bool {
    if (a > start) == (b > start) {
        distance(a, start) < distance(b, start)
    } else {
        a <= start
    }
}

/// The `i`th call is the best match, and the first of equally good ones.
pub open spec fn is_launch(runtime: Seq<RuntimeCall>, key: (i64, i64), start: i64, i: int) -> bool {
    &&& matches_key(runtime, i, key)
    &&& forall|j: int| #[trigger]
        matches_key(runtime, j, key) ==> {
            &&& !better(runtime[j].start, runtime[i].start, start)
            &&& j < i ==> better(runtime[i].start, runtime[j].start, start)
        }
}

/// The call that launched an activity, if any call shares its key.
pub open spec fn launch_of(runtime: Seq<RuntimeCall>, key: (i64, i64), start: i64) -> Option<usize> {
    if exists|i: int| #[trigger] matches_key(runtime, i, key) {
        Some((choose|i: int| is_launch(runtime, key, start, i)) as usize)
    } else {
        None
    }
}

pub open spec fn kernel_launch(runtime: Seq<RuntimeCall>, kernel: Kernel) -> Option<usize> {
    launch_of(runtime, kernel_key(kernel), kernel.start)
}

pub open spec fn copy_launch(runtime: Seq<RuntimeCall>, copy: Memcpy) -> Option<usize> {
    launch_of(runtime, copy_key(copy), copy.start)
}

pub open spec fn names_call(launch: Option<usize>, c: int) -> bool {
    launch matches Some(index) && index == c
}

/// Some activity was launched by the `c`th call.
pub open spec fn launches(kernels: Seq<Kernel>, memcpys: Seq<Memcpy>, runtime: Seq<RuntimeCall>, c: int) -> bool {
    ||| exists|i: int|
        0 <= i < kernels.len() && names_call(kernel_launch(runtime, #[trigger] kernels[i]), c)
    ||| exists|i: int|
        0 <= i < memcpys.len() && names_call(copy_launch(runtime, #[trigger] memcpys[i]), c)
}

/// The identifier of a call's event.
pub open spec fn call_id(report: Seq<char>, label: Seq<char>, call: RuntimeCall, index: int) -> Seq<char> {
    report + label + decimal(pid_of(call.global_tid) as int) + ":"@ + decimal(tid_of(call.global_tid) as int)
        + ":"@ + decimal(call.correlation as int) + ":"@ + decimal(index)
}

/// The identifier of a memory copy's event.
pub open spec fn copy_id(report: Seq<char>, copy: Memcpy, index: int) -> Seq<char> {
    report + ":cuda_memcpy:"@ + decimal(copy.device as int) + ":"@ + decimal(copy.context as int) + ":"@
        + decimal(copy.stream as int) + ":"@ + decimal(index)
}

/// The identifier of a kernel's event.
pub open spec fn kernel_id(report: Seq<char>, kernel: Kernel, sequence: int) -> Seq<char> {
    report + ":cuda:"@ + decimal(pid_of(kernel.global_pid) as int) + ":"@ + decimal(kernel.device as int) + ":"@
        + decimal(kernel.context as int) + ":"@ + decimal(kernel.stream as int) + ":"@ + decimal(sequence)
}

/// The identifier that linking leaves on the `c`th call.
pub open spec fn linked_id(
    report: Seq<char>,
    kernels: Seq<Kernel>,
    memcpys: Seq<Memcpy>,
    runtime: Seq<RuntimeCall>,
    c: int,
) -> Option<Seq<char>> {
    if runtime[c].event_id is Some {
        opt_text(runtime[c].event_id)
    } else if launches(kernels, memcpys, runtime, c) {
        Some(call_id(report, ":cuda_api:"@, runtime[c], c))
    } else {
        None
    }
}

/// The calls of `after` are those of `before` with new identifiers.
pub open spec fn same_but_ids(before: Seq<RuntimeCall>, after: Seq<RuntimeCall>) -> bool {
    &&& after.len() == before.len()
    &&& forall|c: int|
        0 <= c < before.len() ==> #[trigger] after[c] == (RuntimeCall {
            event_id: after[c].event_id,
            ..before[c]
        })
}

/// The kernels of `after` are those of `before` with their launches filled in.
pub open spec fn kernels_linked(before: Seq<Kernel>, runtime: Seq<RuntimeCall>, after: Seq<Kernel>) -> bool {
    &&& after.len() == before.len()
    &&& forall|i: int|
        0 <= i < before.len() ==> #[trigger] after[i] == (Kernel {
            launch_call: match kernel_launch(runtime, before[i]) {
                Some(c) => Some(c),
                None => before[i].launch_call,
            },
            ..before[i]
        })
}

/// The copies of `after` are those of `before` with identifiers and launches filled in.
pub open spec fn copies_linked(
    report: Seq<char>,
    before: Seq<Memcpy>,
    runtime: Seq<RuntimeCall>,
    after: Seq<Memcpy>,
) -> bool {
    &&& after.len() == before.len()
    &&& forall|i: int|
        0 <= i < before.len() ==> #[trigger] after[i] == (Memcpy {
            event_id: after[i].event_id,
            launch_call: match copy_launch(runtime, before[i]) {
                Some(c) => Some(c),
                None => before[i].launch_call,
            },
            ..before[i]
        })
    &&& forall|i: int| 0 <= i < before.len() ==> (#[trigger] after[i]).event_id@ == copy_id(report, before[i], i)
}

fn call_event_id(report: &str, label: &str, call: &RuntimeCall, index: usize) -> (id: String)
    ensures
        id@ == call_id(report@, label@, *call, index as int),
{
    let mut id = copied(report);
    id.append(label);
    append_decimal(&mut id, source_pid(call.global_tid));
    id.append(":");
    append_decimal(&mut id, source_tid(call.global_tid));
    id.append(":");
    append_decimal(&mut id, call.correlation);
    id.append(":");
    append_count(&mut id, index as u64);
    id
}

fn copy_event_id(report: &str, copy: &Memcpy, index: usize) -> (id: String)
    ensures
        id@ == copy_id(report@, *copy, index as int),
{
    let mut id = copied(report);
    id.append(":cuda_memcpy:");
    append_decimal(&mut id, copy.device);
    id.append(":");
    append_decimal(&mut id, copy.context);
    id.append(":");
    append_decimal(&mut id, copy.stream);
    id.append(":");
    append_count(&mut id, index as u64);
    id
}

fn kernel_event_id(report: &str, kernel: &Kernel, sequence: u64) -> (id: String)
    ensures
        id@ == kernel_id(report@, *kernel, sequence as int),
{
    let mut id = copied(report);
    id.append(":cuda:");
    append_decimal(&mut id, source_pid(kernel.global_pid));
    id.append(":");
    append_decimal(&mut id, kernel.device);
    id.append(":");
    append_decimal(&mut id, kernel.context);
    id.append(":");
    append_decimal(&mut id, kernel.stream);
    id.append(":");
    append_count(&mut id, sequence);
    id
}

/// Indices grouped by key: each key that occurs, with its positions.
pub open spec fn groups(index: Map<(i64, i64), Vec<usize>>, keys: Seq<(i64, i64)>) -> bool {
    &&& forall|k: (i64, i64)| #[trigger] index.contains_key(k) <==> keys.contains(k)
    &&& forall|k: (i64, i64)| #[trigger]
        index.contains_key(k) ==> index[k]@.len() == positions(keys, k).len() && forall|p: int|
            0 <= p < index[k]@.len() ==> #[trigger] index[k]@[p] == positions(keys, k)[p]
}

/// Groups positions by key.
pub fn group_by_key(keys: &Vec<(i64, i64)>) -> (index: BTreeMap<(i64, i64), Vec<usize>>)
    ensures
        groups(index@, keys@),
{
    let mut index: BTreeMap<(i64, i64), Vec<usize>> = BTreeMap::new();
    proof {
        lemma_pair_keyed();
    }
    for i in 0..keys.len()
        invariant
            keyed::<(i64, i64)>(),
            groups(index@, keys@.take(i as int)),
    {
        let key = keys[i];
        let ghost before = index@;
        let ghost seen = keys@.take(i as int);
        let mut members: Vec<usize> = match index.remove(&key) {
            Some(members) => members,
            None => Vec::new(),
        };
        proof {
            lemma_positions(seen, key);
            assert(members@.len() == positions(seen, key).len());
        }
        members.push(i);
        index.insert(key, members);
        proof {
            let now = keys@.take(i + 1);
            assert(now.drop_last() =~= seen);
            assert forall|k: (i64, i64)| #[trigger] index@.contains_key(k) <==> now.contains(k) by {
                if now.contains(k) && k != key {
                    let j = choose|j: int| 0 <= j < now.len() && now[j] == k;
                    assert(seen[j] == k);
                }
                if seen.contains(k) {
                    let j = choose|j: int| 0 <= j < seen.len() && seen[j] == k;
                    assert(now[j] == k);
                }
                assert(now[i as int] == key);
            }
            assert forall|k: (i64, i64)| #[trigger] index@.contains_key(k) implies index@[k]@.len()
                == positions(now, k).len() && forall|p: int|
                0 <= p < index@[k]@.len() ==> #[trigger] index@[k]@[p] == positions(now, k)[p] by {
                if k != key {
                    assert(before.contains_key(k));
                    assert(index@[k] == before[k]);
                }
            }
        }
    }
    assert(keys@.take(keys@.len() as int) =~= keys@);
    index
}

pub open spec fn call_keys(runtime: Seq<RuntimeCall>) -> Seq<(i64, i64)> {
    Seq::new(runtime.len(), |i: int| call_key(runtime[i]))
}

fn distance_of(a: i64, b: i64) -> (d: i128)
    ensures
        d == distance(a, b),
{
    if a >= b {
        a as i128 - b as i128
    } else {
        b as i128 - a as i128
    }
}

fn is_better(a: i64, b: i64, start: i64) -> (r: bool)
    ensures
        r == better(a, b, start),
{
    if (a > start) == (b > start) {
        distance_of(a, start) < distance_of(b, start)
    } else {
        a <= start
    }
}

fn find_launch(
    runtime: &[RuntimeCall],
    index: &BTreeMap<(i64, i64), Vec<usize>>,
    key: (i64, i64),
    start: i64,
) -> (launch: Option<usize>)
    requires
        groups(index@, call_keys(runtime@)),
    ensures
        launch == launch_of(runtime@, key, start),
        launch matches Some(c) ==> is_launch(runtime@, key, start, c as int),
{
    proof {
        lemma_pair_keyed();
        lemma_positions(call_keys(runtime@), key);
    }
    let ghost keys = call_keys(runtime@);
    let _call_count: usize = runtime.len();
    match index.get(&key) {
        None => {
            proof {
                assert forall|i: int| !#[trigger] matches_key(runtime@, i, key) by {
                    if matches_key(runtime@, i, key) {
                        assert(keys[i] == key);
                    }
                }
            }
            None
        },
        Some(candidates) => {
            let ghost found = positions(keys, key);
            assert(candidates@.len() == found.len());
            if candidates.len() == 0 {
                return None;
            }
            assert forall|p: int| 0 <= p < found.len() implies #[trigger] candidates@[p] == found[p]
                && matches_key(runtime@, found[p], key) by {
                assert(keys[found[p]] == key);
            }
            let mut best: usize = candidates[0];
            for n in 1..candidates.len()
                invariant
                    1 <= n,
                    found == positions(keys, key),
                    keys == call_keys(runtime@),
                    candidates@.len() == found.len(),
                    forall|p: int|
                        0 <= p < found.len() ==> #[trigger] candidates@[p] == found[p] && matches_key(
                            runtime@,
                            found[p],
                            key,
                        ),
                    forall|k: int, l: int| 0 <= k < l < found.len() ==> #[trigger] found[k] < #[trigger] found[l],
                    exists|b: int| 0 <= b < n && best == #[trigger] found[b],
                    forall|p: int|
                        0 <= p < n ==> {
                            &&& !better(runtime@[#[trigger] found[p]].start, runtime@[best as int].start, start)
                            &&& found[p] < best ==> better(
                                runtime@[best as int].start,
                                runtime@[found[p]].start,
                                start,
                            )
                        },
            {
                let candidate: usize = candidates[n];
                assert(candidate == found[n as int]);
                if is_better(runtime[candidate].start, runtime[best].start, start) {
                    best = candidate;
                }
            }
            proof {
                assert forall|j: int| #[trigger] matches_key(runtime@, j, key) implies {
                    &&& !better(runtime@[j].start, runtime@[best as int].start, start)
                    &&& j < best ==> better(runtime@[best as int].start, runtime@[j].start, start)
                } by {
                    assert(keys[j] == key);
                    let p = choose|p: int| 0 <= p < found.len() && found[p] == j;
                    assert(found[p] == j);
                }
                assert(is_launch(runtime@, key, start, best as int));
                lemma_launch_unique(runtime@, key, start, best as int);
            }
            Some(best)
        },
    }
}

proof fn lemma_launch_unique(runtime: Seq<RuntimeCall>, key: (i64, i64), start: i64, c: int)
    requires
        is_launch(runtime, key, start, c),
        runtime.len() <= usize::MAX,
    ensures
        launch_of(runtime, key, start) == Some(c as usize),
{
    assert(matches_key(runtime, c, key));
    let d = choose|i: int| is_launch(runtime, key, start, i);
    assert(is_launch(runtime, key, start, d));
    assert(matches_key(runtime, d, key));
}

proof fn lemma_best_call(runtime: Seq<RuntimeCall>, key: (i64, i64), start: i64, n: int, i: int) -> (best: int)
    requires
        0 <= i < n <= runtime.len(),
        matches_key(runtime, i, key),
    ensures
        best < n,
        matches_key(runtime, best, key),
        forall|j: int|
            j < n && #[trigger] matches_key(runtime, j, key) ==> {
                &&& !better(runtime[j].start, runtime[best].start, start)
                &&& j < best ==> better(runtime[best].start, runtime[j].start, start)
            },
    decreases n,
{
    if exists|k: int| k < n - 1 && #[trigger] matches_key(runtime, k, key) {
        let k = choose|k: int| k < n - 1 && #[trigger] matches_key(runtime, k, key);
        let best = lemma_best_call(runtime, key, start, n - 1, k);
        if matches_key(runtime, n - 1, key) && better(runtime[n - 1].start, runtime[best].start, start) {
            n - 1
        } else {
            best
        }
    } else {
        i
    }
}

/// An activity is linked exactly when a call shares its process and correlation
/// number, and the call is then the best match.
pub proof fn lemma_launch_is_best(runtime: Seq<RuntimeCall>, key: (i64, i64), start: i64)
    requires
        runtime.len() <= usize::MAX,
    ensures
        launch_of(runtime, key, start) is Some <==> exists|i: int| #[trigger] matches_key(runtime, i, key),
        launch_of(runtime, key, start) matches Some(c) ==> is_launch(runtime, key, start, c as int),
{
    if exists|i: int| #[trigger] matches_key(runtime, i, key) {
        let i = choose|i: int| #[trigger] matches_key(runtime, i, key);
        let best = lemma_best_call(runtime, key, start, runtime.len() as int, i);
        assert(is_launch(runtime, key, start, best));
        lemma_launch_unique(runtime, key, start, best);
    }
}

/// Links every kernel and memory copy to the Runtime call of the same process and
/// correlation number that started it, and gives linked calls an identifier.
/// Returns how many kernels and how many copies were linked.
pub fn link_runtime_calls_to_gpu_activities(
    report: &str,
    kernels: &mut [Kernel],
    memcpys: &mut [Memcpy],
    runtime: &mut [RuntimeCall],
) -> (links: (usize, usize))
    ensures
        kernels_linked(old(kernels)@, old(runtime)@, final(kernels)@),
        copies_linked(report@, old(memcpys)@, old(runtime)@, final(memcpys)@),
        same_but_ids(old(runtime)@, final(runtime)@),
        forall|c: int|
            0 <= c < old(runtime)@.len() ==> opt_text((#[trigger] final(runtime)@[c]).event_id) == linked_id(
                report@,
                old(kernels)@,
                old(memcpys)@,
                old(runtime)@,
                c,
            ),
        links.0 == count_where(
            old(kernels)@.len() as int,
            |i: int| kernel_launch(old(runtime)@, old(kernels)@[i]) is Some,
        ),
        links.1 == count_where(
            old(memcpys)@.len() as int,
            |i: int| copy_launch(old(runtime)@, old(memcpys)@[i]) is Some,
        ),
{
    let ghost kernels0 = kernels@;
    let ghost memcpys0 = memcpys@;
    let ghost runtime0 = runtime@;
    let ghost kernel_hit = |i: int| kernel_launch(runtime0, kernels0[i]) is Some;
    let ghost copy_hit = |i: int| copy_launch(runtime0, memcpys0[i]) is Some;

    let mut keys: Vec<(i64, i64)> = Vec::new();
    let mut launched: Vec<bool> = Vec::new();
    for c in 0..runtime.len()
        invariant
            keys@.len() == c,
            launched@.len() == c,
            forall|k: int| 0 <= k < c ==> #[trigger] keys@[k] == call_key(runtime@[k]),
            forall|k: int| 0 <= k < c ==> !#[trigger] launched@[k],
    {
        keys.push((source_pid(runtime[c].global_tid), runtime[c].correlation));
        launched.push(false);
    }
    assert(keys@ =~= call_keys(runtime@));
    let index = group_by_key(&keys);

    let kernel_count: usize = kernels.len();
    let mut kernel_links: usize = 0;
    for i in 0..kernel_count
        invariant
            kernel_count == kernels0.len(),
            runtime@ == runtime0,
            groups(index@, call_keys(runtime@)),
            kernels@.len() == kernels0.len(),
            launched@.len() == runtime0.len(),
            forall|k: int| i <= k < kernels0.len() ==> #[trigger] kernels@[k] == kernels0[k],
            kernels_linked(kernels0.take(i as int), runtime0, kernels@.take(i as int)),
            kernel_hit == (|i: int| kernel_launch(runtime0, kernels0[i]) is Some),
            kernel_links == count_where(i as int, kernel_hit),
            forall|c: int|
                0 <= c < runtime0.len() ==> #[trigger] launched@[c] == launches(
                    kernels0.take(i as int),
                    Seq::<Memcpy>::empty(),
                    runtime0,
                    c,
                ),
    {
        let key = (source_pid(kernels[i].global_pid), kernels[i].correlation);
        let launch = find_launch(runtime, &index, key, kernels[i].start);
        let ghost before = kernels@;
        let ghost launched0 = launched@;
        proof {
            lemma_count_bound(i as int, kernel_hit);
            assert(kernels0.take(i + 1).drop_last() =~= kernels0.take(i as int));
        }
        match launch {
            Some(c) => {
                kernels[i].launch_call = Some(c);
                launched[c] = true;
                kernel_links = kernel_links + 1;
            },
            None => {},
        }
        proof {
            let old_prefix = kernels0.take(i as int);
            let new_prefix = kernels0.take(i + 1);
            assert forall|k: int| 0 <= k < i + 1 implies #[trigger] kernels@.take(i + 1)[k] == (Kernel {
                launch_call: match kernel_launch(runtime0, new_prefix[k]) {
                    Some(c) => Some(c),
                    None => new_prefix[k].launch_call,
                },
                ..new_prefix[k]
            }) by {
                if k < i {
                    assert(before.take(i as int)[k] == kernels@.take(i + 1)[k]);
                    assert(old_prefix[k] == new_prefix[k]);
                }
            }
            assert forall|c: int| 0 <= c < runtime0.len() implies #[trigger] launched@[c] == launches(
                new_prefix,
                Seq::<Memcpy>::empty(),
                runtime0,
                c,
            ) by {
                assert(launched0[c] == launches(old_prefix, Seq::<Memcpy>::empty(), runtime0, c));
                if launched0[c] {
                    let k = choose|k: int|
                        0 <= k < old_prefix.len() && names_call(kernel_launch(runtime0, #[trigger] old_prefix[k]), c);
                    assert(new_prefix[k] == old_prefix[k]);
                }
                assert(new_prefix[i as int] == kernels0[i as int]);
                if launches(new_prefix, Seq::<Memcpy>::empty(), runtime0, c) {
                    let k = choose|k: int|
                        0 <= k < new_prefix.len() && names_call(kernel_launch(runtime0, #[trigger] new_prefix[k]), c);
                    if k < i {
                        assert(new_prefix[k] == old_prefix[k]);
                    }
                }
            }
        }
    }
    assert(kernels0.take(kernels0.len() as int) =~= kernels0);
    assert(kernels@.take(kernels@.len() as int) =~= kernels@);

    let mut memcpy_links: usize = 0;
    assert(memcpys0.take(0) =~= Seq::<Memcpy>::empty());
    let memcpy_count: usize = memcpys.len();
    for i in 0..memcpy_count
        invariant
            memcpy_count == memcpys0.len(),
            runtime@ == runtime0,
            groups(index@, call_keys(runtime@)),
            memcpys@.len() == memcpys0.len(),
            launched@.len() == runtime0.len(),
            forall|k: int| i <= k < memcpys0.len() ==> #[trigger] memcpys@[k] == memcpys0[k],
            copies_linked(report@, memcpys0.take(i as int), runtime0, memcpys@.take(i as int)),
            copy_hit == (|i: int| copy_launch(runtime0, memcpys0[i]) is Some),
            memcpy_links == count_where(i as int, copy_hit),
            forall|c: int|
                0 <= c < runtime0.len() ==> #[trigger] launched@[c] == launches(
                    kernels0,
                    memcpys0.take(i as int),
                    runtime0,
                    c,
                ),
    {
        let id = copy_event_id(report, &memcpys[i], i);
        let key = (source_pid(memcpys[i].global_pid), memcpys[i].correlation);
        let launch = find_launch(runtime, &index, key, memcpys[i].start);
        let ghost before = memcpys@;
        let ghost launched0 = launched@;
        proof {
            lemma_count_bound(i as int, copy_hit);
        }
        memcpys[i].event_id = id;
        match launch {
            Some(c) => {
                memcpys[i].launch_call = Some(c);
                launched[c] = true;
                memcpy_links = memcpy_links + 1;
            },
            None => {},
        }
        proof {
            let old_prefix = memcpys0.take(i as int);
            let new_prefix = memcpys0.take(i + 1);
            assert forall|k: int| 0 <= k < i + 1 implies (#[trigger] memcpys@.take(i + 1)[k] == (Memcpy {
                event_id: memcpys@.take(i + 1)[k].event_id,
                launch_call: match copy_launch(runtime0, new_prefix[k]) {
                    Some(c) => Some(c),
                    None => new_prefix[k].launch_call,
                },
                ..new_prefix[k]
            })) && memcpys@.take(i + 1)[k].event_id@ == copy_id(report@, new_prefix[k], k) by {
                if k < i {
                    assert(before.take(i as int)[k] == memcpys@.take(i + 1)[k]);
                    assert(old_prefix[k] == new_prefix[k]);
                }
            }
            assert forall|c: int| 0 <= c < runtime0.len() implies #[trigger] launched@[c] == launches(
                kernels0,
                new_prefix,
                runtime0,
                c,
            ) by {
                assert(launched0[c] == launches(kernels0, old_prefix, runtime0, c));
                if exists|k: int|
                    0 <= k < old_prefix.len() && names_call(copy_launch(runtime0, #[trigger] old_prefix[k]), c) {
                    let k = choose|k: int|
                        0 <= k < old_prefix.len() && names_call(copy_launch(runtime0, #[trigger] old_prefix[k]), c);
                    assert(new_prefix[k] == old_prefix[k]);
                }
                assert(new_prefix[i as int] == memcpys0[i as int]);
                if exists|k: int|
                    0 <= k < new_prefix.len() && names_call(copy_launch(runtime0, #[trigger] new_prefix[k]), c) {
                    let k = choose|k: int|
                        0 <= k < new_prefix.len() && names_call(copy_launch(runtime0, #[trigger] new_prefix[k]), c);
                    if k < i {
                        assert(new_prefix[k] == old_prefix[k]);
                    }
                }
            }
        }
    }
    assert(memcpys0.take(memcpys0.len() as int) =~= memcpys0);
    assert(memcpys@.take(memcpys@.len() as int) =~= memcpys@);

    let call_count: usize = runtime.len();
    for c in 0..call_count
        invariant
            call_count == runtime@.len() == runtime0.len() == launched@.len(),
            forall|k: int| c <= k < runtime0.len() ==> #[trigger] runtime@[k] == runtime0[k],
            forall|k: int|
                0 <= k < runtime0.len() ==> #[trigger] launched@[k] == launches(kernels0, memcpys0, runtime0, k),
            forall|k: int|
                0 <= k < c ==> {
                    &&& #[trigger] runtime@[k] == (RuntimeCall { event_id: runtime@[k].event_id, ..runtime0[k] })
                    &&& opt_text(runtime@[k].event_id) == linked_id(report@, kernels0, memcpys0, runtime0, k)
                },
    {
        if launched[c] && runtime[c].event_id.is_none() {
            let id = call_event_id(report, ":cuda_api:", &runtime[c], c);
            runtime[c].event_id = Some(id);
        }
    }
    (kernel_links, memcpy_links)
}

/// The synchronization calls, with their versioned and per-thread-stream variants.
pub open spec fn is_sync_name(name: Seq<char>) -> bool {
    ||| name == "cudaDeviceSynchronize"@
    ||| "cudaDeviceSynchronize_"@.is_prefix_of(name)
    ||| name == "cudaStreamSynchronize"@
    ||| "cudaStreamSynchronize_"@.is_prefix_of(name)
}

pub fn is_cuda_sync_api(name: &str) -> (r: bool)
    ensures
        r == is_sync_name(name@),
{
    same_text(name, "cudaDeviceSynchronize") || starts_with(name, "cudaDeviceSynchronize_") || same_text(
        name,
        "cudaStreamSynchronize",
    ) || starts_with(name, "cudaStreamSynchronize_")
}

/// The identifier that marking leaves on the `c`th call.
pub open spec fn sync_id(report: Seq<char>, runtime: Seq<RuntimeCall>, c: int) -> Option<Seq<char>> {
    if runtime[c].event_id is None && is_sync_name(runtime[c].name@) {
        Some(call_id(report, ":cuda_api_sync:"@, runtime[c], c))
    } else {
        opt_text(runtime[c].event_id)
    }
}

/// Gives every synchronization call an identifier, so that it becomes visible.
/// Returns the number of synchronization calls.
pub fn mark_cuda_sync_calls(report: &str, runtime: &mut [RuntimeCall]) -> (sync_calls: usize)
    ensures
        same_but_ids(old(runtime)@, final(runtime)@),
        forall|c: int|
            0 <= c < old(runtime)@.len() ==> opt_text((#[trigger] final(runtime)@[c]).event_id) == sync_id(
                report@,
                old(runtime)@,
                c,
            ),
        sync_calls == count_where(
            old(runtime)@.len() as int,
            |c: int| is_sync_name(old(runtime)@[c].name@),
        ),
{
    let ghost runtime0 = runtime@;
    let ghost is_sync = |c: int| is_sync_name(runtime0[c].name@);
    let call_count: usize = runtime.len();
    let mut sync_calls: usize = 0;
    for c in 0..call_count
        invariant
            call_count == runtime@.len() == runtime0.len(),
            is_sync == (|c: int| is_sync_name(runtime0[c].name@)),
            sync_calls == count_where(c as int, is_sync),
            forall|k: int| c <= k < runtime0.len() ==> #[trigger] runtime@[k] == runtime0[k],
            forall|k: int|
                0 <= k < c ==> {
                    &&& #[trigger] runtime@[k] == (RuntimeCall { event_id: runtime@[k].event_id, ..runtime0[k] })
                    &&& opt_text(runtime@[k].event_id) == sync_id(report@, runtime0, k)
                },
    {
        proof {
            lemma_count_bound(c as int, is_sync);
        }
        if is_cuda_sync_api(runtime[c].name.as_str()) {
            sync_calls = sync_calls + 1;
            if runtime[c].event_id.is_none() {
                let id = call_event_id(report, ":cuda_api_sync:", &runtime[c], c);
                runtime[c].event_id = Some(id);
            }
        }
    }
    sync_calls
}

/// Gives every call an identifier, for a trace that holds no GPU activity to link to.
pub fn mark_unlinked_calls(report: &str, runtime: &mut [RuntimeCall])
    ensures
        same_but_ids(old(runtime)@, final(runtime)@),
        forall|c: int|
            0 <= c < old(runtime)@.len() ==> opt_text((#[trigger] final(runtime)@[c]).event_id) == Some(
                call_id(report@, ":cuda_api_unlinked:"@, old(runtime)@[c], c),
            ),
{
    let ghost runtime0 = runtime@;
    let call_count: usize = runtime.len();
    for c in 0..call_count
        invariant
            call_count == runtime@.len() == runtime0.len(),
            forall|k: int| c <= k < runtime0.len() ==> #[trigger] runtime@[k] == runtime0[k],
            forall|k: int|
                0 <= k < c ==> {
                    &&& #[trigger] runtime@[k] == (RuntimeCall { event_id: runtime@[k].event_id, ..runtime0[k] })
                    &&& opt_text(runtime@[k].event_id) == Some(
                        call_id(report@, ":cuda_api_unlinked:"@, runtime0[k], k),
                    )
                },
    {
        let id = call_event_id(report, ":cuda_api_unlinked:", &runtime[c], c);
        runtime[c].event_id = Some(id);
    }
}

/// The hardware queue that a kernel ran on.
pub open spec fn kernel_stream(kernel: Kernel) -> (i64, i64, i64, i64) {
    (pid_of(kernel.global_pid), kernel.device, kernel.context, kernel.stream)
}

pub open spec fn kernel_streams(kernels: Seq<Kernel>) -> Seq<(i64, i64, i64, i64)> {
    Seq::new(kernels.len(), |i: int| kernel_stream(kernels[i]))
}

/// The position of the `i`th kernel on its stream, counted from one.
pub open spec fn stream_position(kernels: Seq<Kernel>, i: int) -> nat {
    occurrences(kernel_streams(kernels).take(i + 1), kernel_stream(kernels[i]))
}

/// The kernels of `after` are those of `before`, numbered along their streams.
pub open spec fn kernels_numbered(report: Seq<char>, before: Seq<Kernel>, after: Seq<Kernel>) -> bool {
    &&& after.len() == before.len()
    &&& forall|i: int|
        0 <= i < before.len() ==> #[trigger] after[i] == (Kernel {
            sequence: stream_position(before, i) as u64,
            event_id: after[i].event_id,
            ..before[i]
        })
    &&& forall|i: int|
        0 <= i < before.len() ==> {
            &&& (#[trigger] after[i]).event_id@ == kernel_id(report, before[i], stream_position(before, i) as int)
            &&& after[i].sequence == stream_position(before, i)
        }
}

/// Numbers the kernels of each stream in order and gives every kernel an identifier.
pub fn assign_kernel_ids(report: &str, kernels: &mut [Kernel])
    ensures
        kernels_numbered(report@, old(kernels)@, final(kernels)@),
{
    let ghost kernels0 = kernels@;
    let ghost streams = kernel_streams(kernels0);
    let kernel_count: usize = kernels.len();
    let mut last: BTreeMap<(i64, i64, i64, i64), u64> = BTreeMap::new();
    proof {
        lemma_quad_keyed();
    }
    for i in 0..kernel_count
        invariant
            keyed::<(i64, i64, i64, i64)>(),
            kernel_count == kernels@.len() == kernels0.len(),
            streams == kernel_streams(kernels0),
            forall|s: (i64, i64, i64, i64)| #[trigger]
                last@.contains_key(s) ==> last@[s] == occurrences(streams.take(i as int), s),
            forall|s: (i64, i64, i64, i64)|
                !#[trigger] last@.contains_key(s) ==> occurrences(streams.take(i as int), s) == 0,
            forall|k: int| i <= k < kernels0.len() ==> #[trigger] kernels@[k] == kernels0[k],
            forall|k: int|
                0 <= k < i ==> {
                    &&& #[trigger] kernels@[k] == (Kernel {
                        sequence: stream_position(kernels0, k) as u64,
                        event_id: kernels@[k].event_id,
                        ..kernels0[k]
                    })
                    &&& kernels@[k].sequence == stream_position(kernels0, k)
                    &&& kernels@[k].event_id@ == kernel_id(
                        report@,
                        kernels0[k],
                        stream_position(kernels0, k) as int,
                    )
                },
    {
        let stream = (
            source_pid(kernels[i].global_pid),
            kernels[i].device,
            kernels[i].context,
            kernels[i].stream,
        );
        proof {
            lemma_occurrences_bound(streams.take(i as int), stream);
            assert(streams.take(i + 1).drop_last() =~= streams.take(i as int));
            assert(streams[i as int] == stream);
        }
        let sequence: u64 = match last.get(&stream) {
            Some(n) => *n + 1,
            None => 1,
        };
        last.insert(stream, sequence);
        let id = kernel_event_id(report, &kernels[i], sequence);
        kernels[i].sequence = sequence;
        kernels[i].event_id = id;
    }
}

} // verus!
