//! What projecting ranges onto kernels promises.
use crate::laws::fresh;
use crate::link::kernel_key;
use crate::model::{pid_of, Kernel, NvtxRange, RuntimeCall};
use crate::order::{lemma_moment_keyed, lemma_ordered_lists, lists, ordered, precedes};
use crate::project::{
    append_new, bounds_projected, bounds_settled, call_moments, open_at, open_names, projected, projected_kernels,
    projects, region_names, regions_projected,
};
use crate::seqs::{concat, lemma_concat_at, lemma_concat_entry, lemma_concat_grows, lemma_concat_has};
use crate::text::texts;
use crate::trace::{kernel_prepared, prepared, Recorded};
use vstd::prelude::*;

verus! {

/// The kernel was started from inside the range: by a call of the range's process with
/// the kernel's correlation number that starts after the range does and before it ends.
pub open spec fn started_inside(kernel: Kernel, call: RuntimeCall, range: NvtxRange) -> bool {
    &&& pid_of(call.global_tid) == pid_of(kernel.global_pid)
    &&& call.correlation == kernel.correlation
    &&& range.pid == pid_of(kernel.global_pid)
    &&& range.start < call.start < range.end
}

/// Some call started the kernel from inside the range.
pub open spec fn inside(kernel: Kernel, runtime: Seq<RuntimeCall>, range: NvtxRange) -> bool {
    exists|c: int| 0 <= c < runtime.len() && started_inside(kernel, #[trigger] runtime[c], range)
}

proof fn lemma_inside_projects(kernel: Kernel, runtime: Seq<RuntimeCall>, range: NvtxRange)
    ensures
        inside(kernel, runtime, range) == projected(kernel, runtime, range),
{
    if inside(kernel, runtime, range) {
        let c = choose|c: int| 0 <= c < runtime.len() && started_inside(kernel, #[trigger] runtime[c], range);
        assert(projects(kernel, runtime[c], range));
    }
    if projected(kernel, runtime, range) {
        let c = choose|c: int| 0 <= c < runtime.len() && projects(kernel, #[trigger] runtime[c], range);
        assert(started_inside(kernel, runtime[c], range));
    }
}

/// A range that had no bounds is given, on each device, the tightest bounds around the
/// kernels of that device that were started from inside it, and none where there are
/// no such kernels.
pub proof fn lemma_bounds_are_tight(
    before: Seq<NvtxRange>,
    kernels: Seq<Kernel>,
    runtime: Seq<RuntimeCall>,
    after: Seq<NvtxRange>,
    r: int,
    device: i64,
)
    requires
        bounds_projected(before, kernels, runtime, after),
        0 <= r < before.len(),
        !before[r].kernel_bounds@.contains_key(device),
    ensures
        after.len() == before.len(),
        after[r].start == before[r].start && after[r].end == before[r].end && after[r].name == before[r].name,
        after[r].pid == before[r].pid && after[r].tid == before[r].tid,
        after[r].kernel_bounds@.contains_key(device) <==> exists|k: int|
            0 <= k < kernels.len() && (#[trigger] kernels[k]).device == device && inside(kernels[k], runtime, before[r]),
        after[r].kernel_bounds@.contains_key(device) ==> {
            let bounds = after[r].kernel_bounds@[device];
            &&& forall|k: int|
                0 <= k < kernels.len() && (#[trigger] kernels[k]).device == device && inside(
                    kernels[k],
                    runtime,
                    before[r],
                ) ==> bounds.0 <= kernels[k].start && kernels[k].end <= bounds.1
            &&& exists|k: int|
                0 <= k < kernels.len() && (#[trigger] kernels[k]).device == device && inside(
                    kernels[k],
                    runtime,
                    before[r],
                ) && kernels[k].start == bounds.0
            &&& exists|k: int|
                0 <= k < kernels.len() && (#[trigger] kernels[k]).device == device && inside(
                    kernels[k],
                    runtime,
                    before[r],
                ) && kernels[k].end == bounds.1
        },
{
    let hit = projected_kernels(kernels, runtime, before[r], device);
    assert(bounds_settled(before[r], kernels, runtime, after[r], device));
    assert forall|k: int| #[trigger] hit.contains(k) <==> 0 <= k < kernels.len() && kernels[k].device == device && inside(
        kernels[k],
        runtime,
        before[r],
    ) by {
        if 0 <= k < kernels.len() {
            lemma_inside_projects(kernels[k], runtime, before[r]);
        }
    }
    if after[r].kernel_bounds@.contains_key(device) {
        let bounds = after[r].kernel_bounds@[device];
        let a = choose|k: int| #[trigger] hit.contains(k) && kernels[k].start == bounds.0;
        let b = choose|k: int| #[trigger] hit.contains(k) && kernels[k].end == bounds.1;
        assert(hit.contains(a) && kernels[a].start == bounds.0);
        assert(hit.contains(b) && kernels[b].end == bounds.1);
        assert forall|k: int|
            0 <= k < kernels.len() && (#[trigger] kernels[k]).device == device && inside(
                kernels[k],
                runtime,
                before[r],
            ) implies bounds.0 <= kernels[k].start && kernels[k].end <= bounds.1 by {
            assert(hit.contains(k));
        }
    } else {
        assert forall|k: int|
            0 <= k < kernels.len() && (#[trigger] kernels[k]).device == device implies !inside(
            kernels[k],
            runtime,
            before[r],
        ) by {
            assert(!hit.contains(k));
        }
    }
}

/// Bounds that a range has already only widen.
pub proof fn lemma_bounds_widen(
    before: Seq<NvtxRange>,
    kernels: Seq<Kernel>,
    runtime: Seq<RuntimeCall>,
    after: Seq<NvtxRange>,
    r: int,
    device: i64,
)
    requires
        bounds_projected(before, kernels, runtime, after),
        0 <= r < before.len(),
        before[r].kernel_bounds@.contains_key(device),
    ensures
        after[r].kernel_bounds@.contains_key(device),
        after[r].kernel_bounds@[device].0 <= before[r].kernel_bounds@[device].0,
        before[r].kernel_bounds@[device].1 <= after[r].kernel_bounds@[device].1,
{
    assert(bounds_settled(before[r], kernels, runtime, after[r], device));
}

proof fn lemma_append_new(regions: Seq<Seq<char>>, names: Seq<Seq<char>>)
    ensures
        regions.is_prefix_of(append_new(regions, names)),
        forall|x: Seq<char>| #[trigger]
            append_new(regions, names).contains(x) <==> regions.contains(x) || names.contains(x),
        regions.no_duplicates() ==> append_new(regions, names).no_duplicates(),
    decreases names.len(),
{
    let all = append_new(regions, names);
    if names.len() == 0 {
        assert(all.subrange(0, regions.len() as int) =~= regions);
    } else {
        let rest = names.drop_last();
        lemma_append_new(regions, rest);
        let earlier = append_new(regions, rest);
        assert(all.subrange(0, regions.len() as int) =~= earlier.subrange(0, regions.len() as int));
        assert forall|x: Seq<char>| #[trigger] all.contains(x) <==> regions.contains(x) || names.contains(x) by {
            if all.contains(x) {
                let i = choose|i: int| 0 <= i < all.len() && all[i] == x;
                if i < earlier.len() {
                    assert(earlier[i] == x);
                    assert(earlier.contains(x));
                    if rest.contains(x) {
                        let j = choose|j: int| 0 <= j < rest.len() && rest[j] == x;
                        assert(names[j] == x);
                    }
                } else {
                    assert(names[names.len() - 1] == x);
                }
            }
            if regions.contains(x) || names.contains(x) {
                if names.contains(x) && !rest.contains(x) {
                    let j = choose|j: int| 0 <= j < names.len() && names[j] == x;
                    if j < rest.len() {
                        assert(rest[j] == x);
                    }
                    assert(names.last() == x);
                    if !earlier.contains(x) {
                        assert(all[earlier.len() as int] == x);
                    } else {
                        let i = choose|i: int| 0 <= i < earlier.len() && earlier[i] == x;
                        assert(all[i] == x);
                    }
                } else {
                    assert(earlier.contains(x));
                    let i = choose|i: int| 0 <= i < earlier.len() && earlier[i] == x;
                    assert(all[i] == x);
                }
            }
        }
    }
}

proof fn lemma_moments_listed(runtime: Seq<RuntimeCall>, key: (i64, i64))
    requires
        runtime.len() <= usize::MAX,
    ensures
        lists(ordered(call_moments(runtime, key)), call_moments(runtime, key)),
{
    let all = Seq::new(runtime.len(), |c: int| (runtime[c].start, c as usize));
    let moments = call_moments(runtime, key);
    vstd::seq_lib::seq_to_set_is_finite(all);
    assert forall|m: (i64, usize)| moments.contains(m) implies all.to_set().contains(m) by {
        assert(all[m.1 as int] == m);
    }
    assert(moments.subset_of(all.to_set()));
    vstd::set_lib::lemma_set_subset_finite(all.to_set(), moments);
    lemma_moment_keyed();
    lemma_ordered_lists(moments);
}

/// A kernel is to be noted under a name.
pub open spec fn noted(kernel: Kernel, runtime: Seq<RuntimeCall>, nvtx: Seq<NvtxRange>, name: Seq<char>) -> bool {
    exists|r: int| 0 <= r < nvtx.len() && (#[trigger] nvtx[r]).name@ == name && inside(kernel, runtime, nvtx[r])
}

proof fn lemma_region_names(kernel: Kernel, runtime: Seq<RuntimeCall>, nvtx: Seq<NvtxRange>, name: Seq<char>)
    requires
        runtime.len() <= usize::MAX,
    ensures
        region_names(kernel, runtime, nvtx).contains(name) <==> noted(kernel, runtime, nvtx, name),
{
    let key = kernel_key(kernel);
    let pid = pid_of(kernel.global_pid);
    let moments = ordered(call_moments(runtime, key));
    lemma_moments_listed(runtime, key);
    let f = |i: int| open_names(nvtx, pid, moments[i].0);
    let names = region_names(kernel, runtime, nvtx);
    if names.contains(name) {
        let p = choose|p: int| 0 <= p < names.len() && names[p] == name;
        let place = lemma_concat_entry(moments.len() as int, f, p);
        let m = moments[place.0];
        let g = |r: int|
            if nvtx[r].pid == pid && open_at(nvtx[r], m.0) {
                seq![nvtx[r].name@]
            } else {
                Seq::empty()
            };
        let inner = lemma_concat_entry(nvtx.len() as int, g, place.1);
        assert(moments.to_set().contains(m));
        assert(started_inside(kernel, runtime[m.1 as int], nvtx[inner.0]));
        assert(inside(kernel, runtime, nvtx[inner.0]));
        assert(nvtx[inner.0].name@ == name);
    }
    if noted(kernel, runtime, nvtx, name) {
        let r = choose|r: int|
            0 <= r < nvtx.len() && (#[trigger] nvtx[r]).name@ == name && inside(kernel, runtime, nvtx[r]);
        let c = choose|c: int| 0 <= c < runtime.len() && started_inside(kernel, #[trigger] runtime[c], nvtx[r]);
        let m = (runtime[c].start, c as usize);
        assert(call_moments(runtime, key).contains(m));
        assert(moments.to_set().contains(m));
        let i = choose|i: int| 0 <= i < moments.len() && moments[i] == m;
        let g = |r: int|
            if nvtx[r].pid == pid && open_at(nvtx[r], m.0) {
                seq![nvtx[r].name@]
            } else {
                Seq::empty()
            };
        let x = lemma_concat_has(nvtx.len() as int, g, r, 0);
        assert(f(i)[x] == name);
        let p = lemma_concat_has(moments.len() as int, f, i, x);
        assert(names[p] == name);
    }
}

/// The regions of a kernel are, besides those that it has already, exactly the names of
/// the ranges from inside which it was started: nested ranges are all there, and no
/// name is added twice.
pub proof fn lemma_regions_are_noted(
    before: Seq<Kernel>,
    nvtx: Seq<NvtxRange>,
    runtime: Seq<RuntimeCall>,
    after: Seq<Kernel>,
    k: int,
)
    requires
        regions_projected(before, nvtx, runtime, after),
        runtime.len() <= usize::MAX,
        0 <= k < before.len(),
    ensures
        after.len() == before.len(),
        texts(before[k].nvtx_regions@).is_prefix_of(texts(after[k].nvtx_regions@)),
        forall|name: Seq<char>| #[trigger]
            texts(after[k].nvtx_regions@).contains(name) <==> texts(before[k].nvtx_regions@).contains(name) || noted(
                before[k],
                runtime,
                nvtx,
                name,
            ),
        texts(before[k].nvtx_regions@).no_duplicates() ==> texts(after[k].nvtx_regions@).no_duplicates(),
        after[k].start == before[k].start && after[k].end == before[k].end && after[k].name == before[k].name,
        after[k].device == before[k].device && after[k].context == before[k].context,
        after[k].stream == before[k].stream && after[k].correlation == before[k].correlation,
        after[k].global_pid == before[k].global_pid && after[k].launch_call == before[k].launch_call,
{
    let names = region_names(before[k], runtime, nvtx);
    lemma_append_new(texts(before[k].nvtx_regions@), names);
    assert(texts(after[k].nvtx_regions@) == append_new(texts(before[k].nvtx_regions@), names));
    assert forall|name: Seq<char>| #[trigger] texts(after[k].nvtx_regions@).contains(name) <==> texts(
        before[k].nvtx_regions@,
    ).contains(name) || noted(before[k], runtime, nvtx, name) by {
        lemma_region_names(before[k], runtime, nvtx, name);
    }
    assert(after[k].start == before[k].start);
}

/// In a prepared trace the regions of a kernel are exactly the names of the ranges from
/// inside which it was started, each once.
pub proof fn lemma_prepared_regions(report: Seq<char>, before: Recorded, after: Recorded, k: int)
    requires
        prepared(report, before, after),
        before.runtime.len() <= usize::MAX,
        0 <= k < before.kernels.len(),
        before.kernels[k].nvtx_regions@.len() == 0,
    ensures
        forall|name: Seq<char>| #[trigger]
            texts(after.kernels[k].nvtx_regions@).contains(name) <==> noted(
                before.kernels[k],
                before.runtime,
                before.nvtx,
                name,
            ),
        texts(after.kernels[k].nvtx_regions@).no_duplicates(),
{
    let kernel = before.kernels[k];
    let names = region_names(kernel, before.runtime, before.nvtx);
    assert(kernel_prepared(report, before, k, after.kernels[k]));
    assert(texts(kernel.nvtx_regions@) =~= Seq::empty());
    lemma_append_new(texts(kernel.nvtx_regions@), names);
    assert forall|name: Seq<char>| #[trigger] texts(after.kernels[k].nvtx_regions@).contains(name) <==> noted(
        before.kernels[k],
        before.runtime,
        before.nvtx,
        name,
    ) by {
        lemma_region_names(kernel, before.runtime, before.nvtx, name);
    }
}

/// The envelopes of a prepared trace are tight.
pub proof fn lemma_prepared_bounds(report: Seq<char>, before: Recorded, after: Recorded, r: int, device: i64)
    requires
        prepared(report, before, after),
        fresh(before),
        0 <= r < before.nvtx.len(),
    ensures
        after.nvtx[r].kernel_bounds@.contains_key(device) <==> exists|k: int|
            0 <= k < before.kernels.len() && (#[trigger] before.kernels[k]).device == device && inside(
                before.kernels[k],
                before.runtime,
                before.nvtx[r],
            ),
        after.nvtx[r].kernel_bounds@.contains_key(device) ==> forall|k: int|
            0 <= k < before.kernels.len() && (#[trigger] before.kernels[k]).device == device && inside(
                before.kernels[k],
                before.runtime,
                before.nvtx[r],
            ) ==> after.nvtx[r].kernel_bounds@[device].0 <= before.kernels[k].start && before.kernels[k].end
                <= after.nvtx[r].kernel_bounds@[device].1,
{
    assert(!before.nvtx[r].kernel_bounds@.dom().contains(device));
    lemma_bounds_are_tight(before.nvtx, before.kernels, before.runtime, after.nvtx, r, device);
}

/// The call and the range by which a kernel comes under a name.
pub open spec fn gives_name(
    kernel: Kernel,
    runtime: Seq<RuntimeCall>,
    nvtx: Seq<NvtxRange>,
    name: Seq<char>,
    c: int,
    r: int,
) -> bool {
    &&& 0 <= c < runtime.len()
    &&& 0 <= r < nvtx.len()
    &&& nvtx[r].name@ == name
    &&& started_inside(kernel, runtime[c], nvtx[r])
}

/// A call and a range come before others: the call starts earlier or is listed
/// earlier, or the calls are one and the range is listed earlier.
pub open spec fn comes_first(runtime: Seq<RuntimeCall>, c: int, r: int, c1: int, r1: int) -> bool {
    ||| runtime[c].start < runtime[c1].start
    ||| runtime[c].start == runtime[c1].start && c < c1
    ||| c == c1 && r < r1
}

proof fn lemma_append_order(names: Seq<Seq<char>>, i: int, j: int) -> (p: int)
    requires
        0 <= i < j < append_new(Seq::empty(), names).len(),
    ensures
        0 <= p < names.len(),
        names[p] == append_new(Seq::empty(), names)[i],
        forall|q: int|
            0 <= q < names.len() && #[trigger] names[q] == append_new(Seq::empty(), names)[j] ==> p < q,
    decreases names.len(),
{
    let rest = names.drop_last();
    let earlier = append_new(Seq::empty(), rest);
    let all = append_new(Seq::empty(), names);
    lemma_append_new(Seq::empty(), rest);
    if j < earlier.len() {
        let p = lemma_append_order(rest, i, j);
        assert forall|q: int| 0 <= q < names.len() && #[trigger] names[q] == all[j] implies p < q by {
            if q < rest.len() {
                assert(rest[q] == names[q]);
            }
        }
        p
    } else {
        assert(earlier.contains(earlier[i]));
        assert(rest.contains(earlier[i]));
        let p = choose|p: int| 0 <= p < rest.len() && rest[p] == earlier[i];
        assert forall|q: int| 0 <= q < names.len() && #[trigger] names[q] == all[j] implies p < q by {
            if q < rest.len() {
                assert(rest[q] == names.last());
                assert(rest.contains(names.last()));
            }
        }
        p
    }
}

/// The regions of a kernel are in the order in which they were met: by the start of
/// the call, and around one call outer ranges before those listed after them.
pub proof fn lemma_regions_are_in_order(report: Seq<char>, before: Recorded, after: Recorded, k: int, i: int, j: int) -> (met: (
    int,
    int,
))
    requires
        prepared(report, before, after),
        before.runtime.len() <= usize::MAX,
        0 <= k < before.kernels.len(),
        before.kernels[k].nvtx_regions@.len() == 0,
        0 <= i < j < after.kernels[k].nvtx_regions@.len(),
    ensures
        gives_name(
            before.kernels[k],
            before.runtime,
            before.nvtx,
            after.kernels[k].nvtx_regions@[i]@,
            met.0,
            met.1,
        ),
        forall|c: int, r: int|
            #![trigger before.runtime[c], before.nvtx[r]]
            gives_name(before.kernels[k], before.runtime, before.nvtx, after.kernels[k].nvtx_regions@[j]@, c, r)
                ==> comes_first(before.runtime, met.0, met.1, c, r),
{
    let kernel = before.kernels[k];
    let runtime = before.runtime;
    let nvtx = before.nvtx;
    let key = kernel_key(kernel);
    let pid = pid_of(kernel.global_pid);
    let moments = ordered(call_moments(runtime, key));
    lemma_moments_listed(runtime, key);
    lemma_moment_keyed();
    let f = |i: int| open_names(nvtx, pid, moments[i].0);
    let names = region_names(kernel, runtime, nvtx);
    assert(kernel_prepared(report, before, k, after.kernels[k]));
    assert(texts(kernel.nvtx_regions@) =~= Seq::empty());
    let all = append_new(Seq::empty(), names);
    assert(texts(after.kernels[k].nvtx_regions@) == all);
    assert(all[i] == after.kernels[k].nvtx_regions@[i]@ && all[j] == after.kernels[k].nvtx_regions@[j]@);
    let p = lemma_append_order(names, i, j);
    let place = lemma_concat_entry(moments.len() as int, f, p);
    let m = moments[place.0];
    assert(moments.to_set().contains(m));
    let g = |r: int|
        if nvtx[r].pid == pid && open_at(nvtx[r], m.0) {
            seq![nvtx[r].name@]
        } else {
            Seq::empty()
        };
    let inner = lemma_concat_entry(nvtx.len() as int, g, place.1);
    let met = (m.1 as int, inner.0);
    assert forall|c: int, r: int|
        #![trigger runtime[c], nvtx[r]]
        gives_name(kernel, runtime, nvtx, all[j], c, r) implies comes_first(runtime, met.0, met.1, c, r) by {
        let m1 = (runtime[c].start, c as usize);
        assert(call_moments(runtime, key).contains(m1));
        assert(moments.to_set().contains(m1));
        let b = choose|b: int| 0 <= b < moments.len() && moments[b] == m1;
        let h = |r: int|
            if nvtx[r].pid == pid && open_at(nvtx[r], m1.0) {
                seq![nvtx[r].name@]
            } else {
                Seq::empty()
            };
        lemma_concat_at(nvtx.len() as int, h, r, 0);
        let x = concat(r, h).len() as int;
        assert(f(b)[x] == all[j]);
        lemma_concat_at(moments.len() as int, f, b, x);
        let q = concat(b, f).len() + x;
        assert(names[q] == all[j]);
        assert(p < q);
        if place.0 < b {
            assert(precedes(moments[place.0], moments[b]));
        } else if place.0 > b {
            lemma_concat_grows(f, b + 1, place.0);
        } else {
            assert(g =~= h);
            if r <= inner.0 {
                lemma_concat_grows(g, r, inner.0);
            }
        }
    }
    met
}

} // verus!
