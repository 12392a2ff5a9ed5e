//! What linking, naming and marking promise of the records.
use crate::laws::fresh;
use crate::link::{
    copies_linked, copy_launch, is_launch, is_sync_name, kernel_launch, kernel_stream, kernel_streams, kernels_linked,
    kernels_numbered, launch_of, launches, lemma_launch_is_best, linked_id, matches_key, names_call, same_but_ids,
    stream_position, sync_id,
};
use crate::model::{pid_of, tid_of, Kernel, Memcpy, RuntimeCall};
use crate::seqs::{count_where, occurrences};
use crate::text::{decimal, opt_text};
use crate::trace::{kernel_links, copy_links, kernel_prepared, prepared, shown_id, sync_calls, Recorded};
use vstd::prelude::*;

verus! {

/// The call was made by the process and bears the correlation number.
pub open spec fn bears(call: RuntimeCall, global_pid: i64, correlation: i64) -> bool {
    pid_of(call.global_tid) == pid_of(global_pid) && call.correlation == correlation
}

/// Of the calls that bear the numbers of an activity, this one is the latest that
/// starts no later than the activity, or else the earliest; of several that start at
/// one instant it is the first.
pub open spec fn nearest(runtime: Seq<RuntimeCall>, d: int, global_pid: i64, correlation: i64, start: i64) -> bool {
    &&& 0 <= d < runtime.len()
    &&& bears(runtime[d], global_pid, correlation)
    &&& forall|c: int|
        0 <= c < runtime.len() && bears(#[trigger] runtime[c], global_pid, correlation) ==> {
            &&& runtime[c].start <= start ==> runtime[c].start <= runtime[d].start <= start
            &&& runtime[d].start > start ==> runtime[d].start <= runtime[c].start
            &&& runtime[c].start == runtime[d].start ==> d <= c
        }
}

proof fn lemma_launch_is_nearest(runtime: Seq<RuntimeCall>, global_pid: i64, correlation: i64, start: i64)
    requires
        runtime.len() <= usize::MAX,
    ensures
        match launch_of(runtime, (pid_of(global_pid), correlation), start) {
            Some(d) => nearest(runtime, d as int, global_pid, correlation, start),
            None => forall|c: int| 0 <= c < runtime.len() ==> !bears(#[trigger] runtime[c], global_pid, correlation),
        },
{
    let key = (pid_of(global_pid), correlation);
    lemma_launch_is_best(runtime, key, start);
    assert forall|c: int| 0 <= c < runtime.len() implies matches_key(runtime, c, key) == bears(
        #[trigger] runtime[c],
        global_pid,
        correlation,
    ) by {}
    if let Some(d) = launch_of(runtime, key, start) {
        assert(is_launch(runtime, key, start, d as int));
        assert forall|c: int| 0 <= c < runtime.len() && bears(#[trigger] runtime[c], global_pid, correlation) implies {
            &&& runtime[c].start <= start ==> runtime[c].start <= runtime[d as int].start <= start
            &&& runtime[d as int].start > start ==> runtime[d as int].start <= runtime[c].start
            &&& runtime[c].start == runtime[d as int].start ==> d <= c
        } by {
            assert(matches_key(runtime, c, key));
        }
    }
}

/// Every copy, whatever its kind, is linked to the nearest call of its process and
/// correlation number; it is linked whenever there is such a call.
pub proof fn lemma_copies_are_linked(report: Seq<char>, before: Seq<Memcpy>, runtime: Seq<RuntimeCall>, after: Seq<Memcpy>, i: int)
    requires
        copies_linked(report, before, runtime, after),
        runtime.len() <= usize::MAX,
        0 <= i < before.len(),
    ensures
        after.len() == before.len(),
        (exists|c: int|
            0 <= c < runtime.len() && bears(#[trigger] runtime[c], before[i].global_pid, before[i].correlation)) ==> (
        after[i].launch_call matches Some(d) && nearest(
            runtime,
            d as int,
            before[i].global_pid,
            before[i].correlation,
            before[i].start,
        )),
        (forall|c: int|
            0 <= c < runtime.len() ==> !bears(#[trigger] runtime[c], before[i].global_pid, before[i].correlation))
            ==> after[i].launch_call == before[i].launch_call,
        after[i].event_id@ == report + ":cuda_memcpy:"@ + decimal(before[i].device as int) + ":"@ + decimal(
            before[i].context as int,
        ) + ":"@ + decimal(before[i].stream as int) + ":"@ + decimal(i),
        after[i].start == before[i].start && after[i].end == before[i].end,
        after[i].device == before[i].device && after[i].context == before[i].context,
        after[i].stream == before[i].stream && after[i].correlation == before[i].correlation,
        after[i].global_pid == before[i].global_pid && after[i].bytes == before[i].bytes,
        after[i].copy_kind == before[i].copy_kind && after[i].src_kind == before[i].src_kind,
        after[i].dst_kind == before[i].dst_kind && after[i].src_device == before[i].src_device,
        after[i].src_context == before[i].src_context && after[i].dst_device == before[i].dst_device,
        after[i].dst_context == before[i].dst_context && after[i].graph_node == before[i].graph_node,
        after[i].virtual_address == before[i].virtual_address && after[i].copy_count == before[i].copy_count,
{
    lemma_launch_is_nearest(runtime, before[i].global_pid, before[i].correlation, before[i].start);
    assert(after[i].start == before[i].start);
}

/// Every kernel is linked to the nearest call of its process and correlation number;
/// it is linked whenever there is such a call.
pub proof fn lemma_kernels_are_linked(before: Seq<Kernel>, runtime: Seq<RuntimeCall>, after: Seq<Kernel>, k: int)
    requires
        kernels_linked(before, runtime, after),
        runtime.len() <= usize::MAX,
        0 <= k < before.len(),
    ensures
        after.len() == before.len(),
        (exists|c: int|
            0 <= c < runtime.len() && bears(#[trigger] runtime[c], before[k].global_pid, before[k].correlation)) ==> (
        after[k].launch_call matches Some(d) && nearest(
            runtime,
            d as int,
            before[k].global_pid,
            before[k].correlation,
            before[k].start,
        )),
        (forall|c: int|
            0 <= c < runtime.len() ==> !bears(#[trigger] runtime[c], before[k].global_pid, before[k].correlation))
            ==> after[k].launch_call == before[k].launch_call,
        same_kernel(before[k], after[k]),
        after[k].sequence == before[k].sequence && after[k].event_id == before[k].event_id,
        after[k].nvtx_regions == before[k].nvtx_regions,
{
    lemma_launch_is_nearest(runtime, before[k].global_pid, before[k].correlation, before[k].start);
    assert(after[k].start == before[k].start);
}

/// What was recorded of a kernel is the same.
pub open spec fn same_kernel(a: Kernel, b: Kernel) -> bool {
    &&& a.start == b.start && a.end == b.end && a.device == b.device && a.context == b.context
    &&& a.stream == b.stream && a.correlation == b.correlation && a.global_pid == b.global_pid
    &&& a.name == b.name && a.grid == b.grid && a.block == b.block
}

/// What was recorded of a call is the same.
pub open spec fn same_call(a: RuntimeCall, b: RuntimeCall) -> bool {
    a.start == b.start && a.end == b.end && a.global_tid == b.global_tid && a.correlation == b.correlation && a.name
        == b.name
}

/// The name of an identifier of a call: the report, a label, and the numbers of the
/// call, ending with its place among the calls.
pub open spec fn call_identifier(report: Seq<char>, label: Seq<char>, call: RuntimeCall, c: int) -> Seq<char> {
    report + label + decimal(pid_of(call.global_tid) as int) + ":"@ + decimal(tid_of(call.global_tid) as int) + ":"@
        + decimal(call.correlation as int) + ":"@ + decimal(c)
}

/// A call is nearest to some activity.
pub open spec fn starts_activity(kernels: Seq<Kernel>, memcpys: Seq<Memcpy>, runtime: Seq<RuntimeCall>, c: int) -> bool {
    ||| exists|k: int|
        0 <= k < kernels.len() && nearest(
            runtime,
            c,
            (#[trigger] kernels[k]).global_pid,
            kernels[k].correlation,
            kernels[k].start,
        )
    ||| exists|i: int|
        0 <= i < memcpys.len() && nearest(
            runtime,
            c,
            (#[trigger] memcpys[i]).global_pid,
            memcpys[i].correlation,
            memcpys[i].start,
        )
}

proof fn lemma_nearest_unique(runtime: Seq<RuntimeCall>, c: int, d: int, global_pid: i64, correlation: i64, start: i64)
    requires
        nearest(runtime, c, global_pid, correlation, start),
        nearest(runtime, d, global_pid, correlation, start),
    ensures
        c == d,
{
    assert(bears(runtime[c], global_pid, correlation) && bears(runtime[d], global_pid, correlation));
}

proof fn lemma_starting_calls(kernels: Seq<Kernel>, memcpys: Seq<Memcpy>, runtime: Seq<RuntimeCall>, c: int)
    requires
        runtime.len() <= usize::MAX,
        0 <= c < runtime.len(),
    ensures
        launches(kernels, memcpys, runtime, c) == starts_activity(kernels, memcpys, runtime, c),
{
    if launches(kernels, memcpys, runtime, c) {
        if exists|k: int| 0 <= k < kernels.len() && names_call(kernel_launch(runtime, #[trigger] kernels[k]), c) {
            let k = choose|k: int| 0 <= k < kernels.len() && names_call(kernel_launch(runtime, #[trigger] kernels[k]), c);
            lemma_launch_is_nearest(runtime, kernels[k].global_pid, kernels[k].correlation, kernels[k].start);
            assert(nearest(runtime, c, kernels[k].global_pid, kernels[k].correlation, kernels[k].start));
        } else {
            let i = choose|i: int| 0 <= i < memcpys.len() && names_call(copy_launch(runtime, #[trigger] memcpys[i]), c);
            lemma_launch_is_nearest(runtime, memcpys[i].global_pid, memcpys[i].correlation, memcpys[i].start);
            assert(nearest(runtime, c, memcpys[i].global_pid, memcpys[i].correlation, memcpys[i].start));
        }
    }
    if starts_activity(kernels, memcpys, runtime, c) {
        if exists|k: int|
            0 <= k < kernels.len() && nearest(
                runtime,
                c,
                (#[trigger] kernels[k]).global_pid,
                kernels[k].correlation,
                kernels[k].start,
            ) {
            let k = choose|k: int|
                0 <= k < kernels.len() && nearest(
                    runtime,
                    c,
                    (#[trigger] kernels[k]).global_pid,
                    kernels[k].correlation,
                    kernels[k].start,
                );
            lemma_launch_is_nearest(runtime, kernels[k].global_pid, kernels[k].correlation, kernels[k].start);
            let d = kernel_launch(runtime, kernels[k])->0 as int;
            lemma_nearest_unique(runtime, c, d, kernels[k].global_pid, kernels[k].correlation, kernels[k].start);
            assert(names_call(kernel_launch(runtime, kernels[k]), c));
        } else {
            let i = choose|i: int|
                0 <= i < memcpys.len() && nearest(
                    runtime,
                    c,
                    (#[trigger] memcpys[i]).global_pid,
                    memcpys[i].correlation,
                    memcpys[i].start,
                );
            lemma_launch_is_nearest(runtime, memcpys[i].global_pid, memcpys[i].correlation, memcpys[i].start);
            let d = copy_launch(runtime, memcpys[i])->0 as int;
            lemma_nearest_unique(runtime, c, d, memcpys[i].global_pid, memcpys[i].correlation, memcpys[i].start);
            assert(names_call(copy_launch(runtime, memcpys[i]), c));
        }
    }
}

/// Linking gives exactly the calls that started something an identifier, and leaves
/// those that calls already have.
pub proof fn lemma_linked_calls_are_named(
    report: Seq<char>,
    kernels: Seq<Kernel>,
    memcpys: Seq<Memcpy>,
    before: Seq<RuntimeCall>,
    after: Seq<RuntimeCall>,
    c: int,
)
    requires
        same_but_ids(before, after),
        forall|c: int|
            0 <= c < before.len() ==> opt_text((#[trigger] after[c]).event_id) == linked_id(
                report,
                kernels,
                memcpys,
                before,
                c,
            ),
        before.len() <= usize::MAX,
        0 <= c < before.len(),
    ensures
        after.len() == before.len(),
        same_call(before[c], after[c]),
        before[c].event_id is Some ==> (after[c].event_id matches Some(t) && t@ == before[c].event_id->0@),
        before[c].event_id is None ==> (after[c].event_id is Some <==> starts_activity(kernels, memcpys, before, c)),
        before[c].event_id is None && after[c].event_id is Some ==> after[c].event_id->0@ == call_identifier(
            report,
            ":cuda_api:"@,
            before[c],
            c,
        ),
{
    lemma_starting_calls(kernels, memcpys, before, c);
    assert(opt_text(after[c].event_id) == linked_id(report, kernels, memcpys, before, c));
    assert(after[c] == (RuntimeCall { event_id: after[c].event_id, ..before[c] }));
}

/// A device or stream synchronization, by its plain name or by a variant with a suffix.
pub open spec fn synchronizes(name: Seq<char>) -> bool {
    ||| name == "cudaDeviceSynchronize"@
    ||| name == "cudaStreamSynchronize"@
    ||| exists|rest: Seq<char>| name == #[trigger] ("cudaDeviceSynchronize_"@ + rest)
    ||| exists|rest: Seq<char>| name == #[trigger] ("cudaStreamSynchronize_"@ + rest)
}

proof fn lemma_prefix_rest(prefix: Seq<char>, name: Seq<char>)
    ensures
        prefix.is_prefix_of(name) <==> exists|rest: Seq<char>| name == #[trigger] (prefix + rest),
{
    if prefix.is_prefix_of(name) {
        let rest = name.subrange(prefix.len() as int, name.len() as int);
        assert(name =~= prefix + rest);
    }
    if exists|rest: Seq<char>| name == #[trigger] (prefix + rest) {
        let rest = choose|rest: Seq<char>| name == #[trigger] (prefix + rest);
        assert((prefix + rest).subrange(0, prefix.len() as int) =~= prefix);
    }
}

/// The synchronization calls are those of the documented names.
pub proof fn lemma_sync_names(name: Seq<char>)
    ensures
        is_sync_name(name) == synchronizes(name),
{
    lemma_prefix_rest("cudaDeviceSynchronize_"@, name);
    lemma_prefix_rest("cudaStreamSynchronize_"@, name);
}

/// Marking gives synchronization calls that have no identifier one, and no other call.
pub proof fn lemma_sync_calls_are_named(report: Seq<char>, before: Seq<RuntimeCall>, after: Seq<RuntimeCall>, c: int)
    requires
        same_but_ids(before, after),
        forall|c: int|
            0 <= c < before.len() ==> opt_text((#[trigger] after[c]).event_id) == sync_id(report, before, c),
        0 <= c < before.len(),
    ensures
        after.len() == before.len(),
        same_call(before[c], after[c]),
        before[c].event_id is Some ==> (after[c].event_id matches Some(t) && t@ == before[c].event_id->0@),
        before[c].event_id is None ==> (after[c].event_id is Some <==> synchronizes(before[c].name@)),
        before[c].event_id is None && after[c].event_id is Some ==> after[c].event_id->0@ == call_identifier(
            report,
            ":cuda_api_sync:"@,
            before[c],
            c,
        ),
{
    lemma_sync_names(before[c].name@);
    assert(opt_text(after[c].event_id) == sync_id(report, before, c));
    assert(after[c] == (RuntimeCall { event_id: after[c].event_id, ..before[c] }));
}

/// A call of a prepared trace is shown exactly when it has an identifier already,
/// started an activity or synchronizes, or when there is no activity at all; its
/// identifier tells which.
pub proof fn lemma_shown_calls(report: Seq<char>, before: Recorded, after: Recorded, c: int)
    requires
        prepared(report, before, after),
        before.runtime.len() <= usize::MAX,
        0 <= c < before.runtime.len(),
    ensures
        after.runtime.len() == before.runtime.len(),
        same_call(before.runtime[c], after.runtime[c]),
        ({
            let call = before.runtime[c];
            let idle = before.kernels.len() == 0 && before.memcpys.len() == 0;
            let started = starts_activity(before.kernels, before.memcpys, before.runtime, c);
            let id = after.runtime[c].event_id;
            &&& id is Some <==> idle || call.event_id is Some || started || synchronizes(call.name@)
            &&& idle ==> id->0@ == call_identifier(report, ":cuda_api_unlinked:"@, call, c)
            &&& !idle && call.event_id is Some ==> id->0@ == call.event_id->0@
            &&& !idle && call.event_id is None && started ==> id->0@ == call_identifier(report, ":cuda_api:"@, call, c)
            &&& !idle && call.event_id is None && !started && synchronizes(call.name@) ==> id->0@ == call_identifier(
                report,
                ":cuda_api_sync:"@,
                call,
                c,
            )
        }),
{
    lemma_sync_names(before.runtime[c].name@);
    lemma_starting_calls(before.kernels, before.memcpys, before.runtime, c);
    assert(opt_text(after.runtime[c].event_id) == shown_id(report, before, c));
    assert(after.runtime[c] == (RuntimeCall { event_id: after.runtime[c].event_id, ..before.runtime[c] }));
}

/// The kernels of a prepared trace are the recorded ones, each linked to the nearest
/// call of its process and correlation number whenever there is one.
pub proof fn lemma_prepared_kernels_are_linked(report: Seq<char>, before: Recorded, after: Recorded, k: int)
    requires
        prepared(report, before, after),
        fresh(before),
        before.runtime.len() <= usize::MAX,
        0 <= k < before.kernels.len(),
    ensures
        after.kernels.len() == before.kernels.len(),
        same_kernel(before.kernels[k], after.kernels[k]),
        (exists|c: int|
            0 <= c < before.runtime.len() && bears(
                #[trigger] before.runtime[c],
                before.kernels[k].global_pid,
                before.kernels[k].correlation,
            )) <==> after.kernels[k].launch_call is Some,
        after.kernels[k].launch_call matches Some(d) ==> {
            &&& nearest(
                before.runtime,
                d as int,
                before.kernels[k].global_pid,
                before.kernels[k].correlation,
                before.kernels[k].start,
            )
            &&& after.runtime[d as int].event_id is Some
        },
{
    let kernel = before.kernels[k];
    assert(kernel_prepared(report, before, k, after.kernels[k]));
    assert(kernel.launch_call is None);
    lemma_launch_is_nearest(before.runtime, kernel.global_pid, kernel.correlation, kernel.start);
    if let Some(d) = after.kernels[k].launch_call {
        assert(nearest(before.runtime, d as int, before.kernels[k].global_pid, kernel.correlation, kernel.start));
        lemma_shown_calls(report, before, after, d as int);
    }
}

/// The copies of a prepared trace, whatever their kind, are each linked to the nearest
/// call of their process and correlation number whenever there is one.
pub proof fn lemma_prepared_copies_are_linked(report: Seq<char>, before: Recorded, after: Recorded, i: int)
    requires
        prepared(report, before, after),
        fresh(before),
        before.runtime.len() <= usize::MAX,
        0 <= i < before.memcpys.len(),
    ensures
        after.memcpys.len() == before.memcpys.len(),
        (exists|c: int|
            0 <= c < before.runtime.len() && bears(
                #[trigger] before.runtime[c],
                before.memcpys[i].global_pid,
                before.memcpys[i].correlation,
            )) <==> after.memcpys[i].launch_call is Some,
        after.memcpys[i].launch_call matches Some(d) ==> {
            &&& nearest(
                before.runtime,
                d as int,
                before.memcpys[i].global_pid,
                before.memcpys[i].correlation,
                before.memcpys[i].start,
            )
            &&& after.runtime[d as int].event_id is Some
        },
{
    let copy = before.memcpys[i];
    assert(copy.launch_call is None);
    lemma_launch_is_nearest(before.runtime, copy.global_pid, copy.correlation, copy.start);
    assert(after.memcpys[i].start == copy.start);
    if let Some(d) = after.memcpys[i].launch_call {
        assert(nearest(before.runtime, d as int, before.memcpys[i].global_pid, copy.correlation, copy.start));
        lemma_shown_calls(report, before, after, d as int);
    }
}

/// How many of the numbers below `n` are in the set is the size of the set.
pub proof fn lemma_count_is_size(n: int, p: spec_fn(int) -> bool)
    requires
        0 <= n,
    ensures
        Set::new(|i: int| 0 <= i < n && p(i)).finite(),
        count_where(n, p) == Set::new(|i: int| 0 <= i < n && p(i)).len(),
    decreases n,
{
    let all = Set::new(|i: int| 0 <= i < n && p(i));
    if n == 0 {
        assert(all =~= Set::empty());
    } else {
        lemma_count_is_size(n - 1, p);
        let rest = Set::new(|i: int| 0 <= i < n - 1 && p(i));
        if p(n - 1) {
            assert(all =~= rest.insert(n - 1));
        } else {
            assert(all =~= rest);
        }
    }
}

/// The kernels and copies for which there is a call of their process and correlation
/// number, and the calls that synchronize.
pub open spec fn linkable_kernels(r: Recorded) -> Set<int> {
    Set::new(
        |k: int|
            0 <= k < r.kernels.len() && exists|c: int|
                0 <= c < r.runtime.len() && bears(
                    #[trigger] r.runtime[c],
                    r.kernels[k].global_pid,
                    r.kernels[k].correlation,
                ),
    )
}

pub open spec fn linkable_copies(r: Recorded) -> Set<int> {
    Set::new(
        |i: int|
            0 <= i < r.memcpys.len() && exists|c: int|
                0 <= c < r.runtime.len() && bears(
                    #[trigger] r.runtime[c],
                    r.memcpys[i].global_pid,
                    r.memcpys[i].correlation,
                ),
    )
}

pub open spec fn synchronizing_calls(r: Recorded) -> Set<int> {
    Set::new(|c: int| 0 <= c < r.runtime.len() && synchronizes(r.runtime[c].name@))
}

/// The links that preparing reports count exactly the kernels and copies that have a
/// call, and the calls that synchronize.
pub proof fn lemma_links_are_counted(r: Recorded)
    requires
        r.runtime.len() <= usize::MAX,
    ensures
        kernel_links(r) == linkable_kernels(r).len(),
        copy_links(r) == linkable_copies(r).len(),
        sync_calls(r) == synchronizing_calls(r).len(),
{
    let p = |k: int| kernel_launch(r.runtime, r.kernels[k]) is Some;
    let q = |i: int| copy_launch(r.runtime, r.memcpys[i]) is Some;
    let w = |c: int| is_sync_name(r.runtime[c].name@);
    lemma_count_is_size(r.kernels.len() as int, p);
    lemma_count_is_size(r.memcpys.len() as int, q);
    lemma_count_is_size(r.runtime.len() as int, w);
    assert forall|k: int| linkable_kernels(r).contains(k) <==> 0 <= k < r.kernels.len() && p(k) by {
        if 0 <= k < r.kernels.len() {
            lemma_launch_is_nearest(r.runtime, r.kernels[k].global_pid, r.kernels[k].correlation, r.kernels[k].start);
            if let Some(d) = kernel_launch(r.runtime, r.kernels[k]) {
                assert(bears(r.runtime[d as int], r.kernels[k].global_pid, r.kernels[k].correlation));
            }
        }
    }
    assert forall|i: int| linkable_copies(r).contains(i) <==> 0 <= i < r.memcpys.len() && q(i) by {
        if 0 <= i < r.memcpys.len() {
            lemma_launch_is_nearest(r.runtime, r.memcpys[i].global_pid, r.memcpys[i].correlation, r.memcpys[i].start);
            if let Some(d) = copy_launch(r.runtime, r.memcpys[i]) {
                assert(bears(r.runtime[d as int], r.memcpys[i].global_pid, r.memcpys[i].correlation));
            }
        }
    }
    assert forall|c: int| synchronizing_calls(r).contains(c) <==> 0 <= c < r.runtime.len() && w(c) by {
        if 0 <= c < r.runtime.len() {
            lemma_sync_names(r.runtime[c].name@);
        }
    }
    assert(linkable_kernels(r) =~= Set::new(|k: int| 0 <= k < r.kernels.len() && p(k)));
    assert(linkable_copies(r) =~= Set::new(|i: int| 0 <= i < r.memcpys.len() && q(i)));
    assert(synchronizing_calls(r) =~= Set::new(|c: int| 0 <= c < r.runtime.len() && w(c)));
}

/// Two kernels ran on one hardware stream.
pub open spec fn one_stream(a: Kernel, b: Kernel) -> bool {
    pid_of(a.global_pid) == pid_of(b.global_pid) && a.device == b.device && a.context == b.context && a.stream
        == b.stream
}

/// The kernels before this one that ran on its stream.
pub open spec fn stream_mates(kernels: Seq<Kernel>, k: int, n: int) -> Set<int> {
    Set::new(|j: int| 0 <= j < n && one_stream(kernels[j], kernels[k]))
}

proof fn lemma_stream_count(kernels: Seq<Kernel>, k: int, n: int)
    requires
        0 <= k < kernels.len(),
        0 <= n <= kernels.len(),
    ensures
        stream_mates(kernels, k, n).finite(),
        occurrences(kernel_streams(kernels).take(n), kernel_stream(kernels[k])) == stream_mates(kernels, k, n).len(),
    decreases n,
{
    let streams = kernel_streams(kernels);
    if n == 0 {
        assert(stream_mates(kernels, k, 0) =~= Set::empty());
    } else {
        lemma_stream_count(kernels, k, n - 1);
        assert(streams.take(n).drop_last() =~= streams.take(n - 1));
        assert(streams.take(n).last() == kernel_stream(kernels[n - 1]));
        if one_stream(kernels[n - 1], kernels[k]) {
            assert(stream_mates(kernels, k, n) =~= stream_mates(kernels, k, n - 1).insert(n - 1));
        } else {
            assert(stream_mates(kernels, k, n) =~= stream_mates(kernels, k, n - 1));
        }
    }
}

/// A kernel is numbered by how many kernels ran on its stream up to it, and its
/// identifier names its process, device, context, stream and number.
pub proof fn lemma_kernels_are_numbered(report: Seq<char>, before: Seq<Kernel>, after: Seq<Kernel>, k: int)
    requires
        kernels_numbered(report, before, after),
        0 <= k < before.len(),
    ensures
        after.len() == before.len(),
        same_kernel(before[k], after[k]),
        after[k].launch_call == before[k].launch_call && after[k].nvtx_regions == before[k].nvtx_regions,
        after[k].sequence == 1 + stream_mates(before, k, k).len(),
        after[k].event_id@ == report + ":cuda:"@ + decimal(pid_of(before[k].global_pid) as int) + ":"@ + decimal(
            before[k].device as int,
        ) + ":"@ + decimal(before[k].context as int) + ":"@ + decimal(before[k].stream as int) + ":"@ + decimal(
            after[k].sequence as int,
        ),
{
    lemma_stream_count(before, k, k);
    let streams = kernel_streams(before);
    assert(streams.take(k + 1).drop_last() =~= streams.take(k));
    assert(streams.take(k + 1).last() == kernel_stream(before[k]));
    assert(after[k].sequence == stream_position(before, k));
}

/// So is a kernel of a prepared trace.
pub proof fn lemma_prepared_kernels_are_numbered(report: Seq<char>, before: Recorded, after: Recorded, k: int)
    requires
        prepared(report, before, after),
        0 <= k < before.kernels.len(),
    ensures
        after.kernels.len() == before.kernels.len(),
        after.kernels[k].sequence == 1 + stream_mates(before.kernels, k, k).len(),
        after.kernels[k].event_id@ == report + ":cuda:"@ + decimal(pid_of(before.kernels[k].global_pid) as int) + ":"@
            + decimal(before.kernels[k].device as int) + ":"@ + decimal(before.kernels[k].context as int) + ":"@
            + decimal(before.kernels[k].stream as int) + ":"@ + decimal(after.kernels[k].sequence as int),
{
    let kernels = before.kernels;
    lemma_stream_count(kernels, k, k);
    let streams = kernel_streams(kernels);
    assert(streams.take(k + 1).drop_last() =~= streams.take(k));
    assert(streams.take(k + 1).last() == kernel_stream(kernels[k]));
    assert(kernel_prepared(report, before, k, after.kernels[k]));
}

/// A global identifier holds a process and a thread number, and gives both back.
pub proof fn lemma_global_identifiers(pid: int, tid: int)
    requires
        0 <= pid < 0x1000000,
        0 <= tid < 0x1000000,
    ensures
        pid_of((pid * 0x1000000 + tid) as i64) == pid,
        tid_of((pid * 0x1000000 + tid) as i64) == tid,
{
}

} // verus!
