//! What a conversion promises of its origin, its anchor and its figures.
use crate::emit::drawn;
use crate::event::event_views;
use crate::linkage::lemma_count_is_size;
use crate::devices::{is_device_to_device, is_device_to_host, is_host_to_device};
use crate::model::NvtxRange;
use crate::scene::visible;
use crate::seqs::{concat, lemma_concat_entry, lemma_concat_has};
use crate::text::decimal;
use crate::trace::{
    anchor, batch_start, batch_starts, call_start, converted, earliest, envelopes, lemma_earliest, origin, shown_starts,
    summary_text, trace_scene, Conversion, Recorded, Summary, TraceError,
};
use vstd::prelude::*;

verus! {

/// The range marks the first measured batch of a rank.
pub open spec fn measures_first_batch(range: NvtxRange) -> bool {
    &&& exists|rest: Seq<char>| range.name@ == #[trigger] ("CriticalPath/MeasuredBatch/"@ + rest)
    &&& exists|head: Seq<char>| range.name@ == #[trigger] (head + "/batch_0"@)
}

/// Something that is shown starts at the instant.
pub open spec fn starts_at(r: Recorded, t: i64) -> bool {
    ||| exists|k: int| 0 <= k < r.kernels.len() && (#[trigger] r.kernels[k]).start == t
    ||| exists|i: int| 0 <= i < r.memcpys.len() && (#[trigger] r.memcpys[i]).start == t
    ||| exists|n: int| 0 <= n < r.nvtx.len() && (#[trigger] r.nvtx[n]).start == t
    ||| exists|c: int| 0 <= c < r.runtime.len() && (#[trigger] r.runtime[c]).event_id is Some && r.runtime[c].start == t
}

proof fn lemma_batch_name(range: NvtxRange)
    ensures
        measures_first_batch(range) <==> batch_start(range) == seq![range.start],
        !measures_first_batch(range) ==> batch_start(range) == Seq::<i64>::empty(),
{
    let name = range.name@;
    let prefix = "CriticalPath/MeasuredBatch/"@;
    let suffix = "/batch_0"@;
    if prefix.is_prefix_of(name) {
        assert(name =~= prefix + name.subrange(prefix.len() as int, name.len() as int));
    }
    if suffix.is_suffix_of(name) {
        assert(name =~= name.subrange(0, name.len() - suffix.len()) + suffix);
    }
    if measures_first_batch(range) {
        let rest = choose|rest: Seq<char>| name == #[trigger] (prefix + rest);
        let head = choose|head: Seq<char>| name == #[trigger] (head + suffix);
        assert((prefix + rest).subrange(0, prefix.len() as int) =~= prefix);
        assert((head + suffix).subrange(head.len() as int, (head + suffix).len() as int) =~= suffix);
        assert(suffix.is_suffix_of(name));
    }
    assert(seq![range.start].len() != Seq::<i64>::empty().len());
}

proof fn lemma_batch_starts(r: Recorded)
    ensures
        forall|n: int|
            0 <= n < r.nvtx.len() && measures_first_batch(#[trigger] r.nvtx[n]) ==> batch_starts(r).contains(
                r.nvtx[n].start,
            ),
        forall|t: i64| #[trigger]
            batch_starts(r).contains(t) ==> exists|n: int|
                0 <= n < r.nvtx.len() && measures_first_batch(#[trigger] r.nvtx[n]) && r.nvtx[n].start == t,
{
    let f = |n: int| batch_start(r.nvtx[n]);
    let all = batch_starts(r);
    assert forall|n: int| 0 <= n < r.nvtx.len() && measures_first_batch(#[trigger] r.nvtx[n]) implies all.contains(
        r.nvtx[n].start,
    ) by {
        lemma_batch_name(r.nvtx[n]);
        let x = lemma_concat_has(r.nvtx.len() as int, f, n, 0);
        assert(all[x] == r.nvtx[n].start);
    }
    assert forall|t: i64| #[trigger] all.contains(t) implies exists|n: int|
        0 <= n < r.nvtx.len() && measures_first_batch(#[trigger] r.nvtx[n]) && r.nvtx[n].start == t by {
        let x = choose|x: int| 0 <= x < all.len() && all[x] == t;
        let place = lemma_concat_entry(r.nvtx.len() as int, f, x);
        lemma_batch_name(r.nvtx[place.0]);
        assert(measures_first_batch(r.nvtx[place.0]) && r.nvtx[place.0].start == t);
    }
}

proof fn lemma_shown_starts(r: Recorded)
    ensures
        forall|t: i64| #[trigger] shown_starts(r).contains(t) <==> starts_at(r, t),
{
    let a = Seq::new(r.kernels.len(), |k: int| r.kernels[k].start);
    let b = Seq::new(r.memcpys.len(), |i: int| r.memcpys[i].start);
    let c = Seq::new(r.nvtx.len(), |n: int| r.nvtx[n].start);
    let f = |c: int| call_start(r.runtime[c]);
    let d = concat(r.runtime.len() as int, f);
    let all = shown_starts(r);
    assert(all == a + b + c + d);
    assert forall|t: i64| #[trigger] all.contains(t) <==> starts_at(r, t) by {
        if all.contains(t) {
            let x = choose|x: int| 0 <= x < all.len() && all[x] == t;
            if x < a.len() {
                assert(r.kernels[x].start == t);
            } else if x < a.len() + b.len() {
                assert(r.memcpys[x - a.len()].start == t);
            } else if x < a.len() + b.len() + c.len() {
                assert(r.nvtx[x - a.len() - b.len()].start == t);
            } else {
                let place = lemma_concat_entry(r.runtime.len() as int, f, x - a.len() - b.len() - c.len());
                assert(r.runtime[place.0].event_id is Some && r.runtime[place.0].start == t);
            }
        }
        if exists|k: int| 0 <= k < r.kernels.len() && (#[trigger] r.kernels[k]).start == t {
            let k = choose|k: int| 0 <= k < r.kernels.len() && (#[trigger] r.kernels[k]).start == t;
            assert(all[k] == t);
        }
        if exists|i: int| 0 <= i < r.memcpys.len() && (#[trigger] r.memcpys[i]).start == t {
            let i = choose|i: int| 0 <= i < r.memcpys.len() && (#[trigger] r.memcpys[i]).start == t;
            assert(all[a.len() + i] == t);
        }
        if exists|n: int| 0 <= n < r.nvtx.len() && (#[trigger] r.nvtx[n]).start == t {
            let n = choose|n: int| 0 <= n < r.nvtx.len() && (#[trigger] r.nvtx[n]).start == t;
            assert(all[a.len() + b.len() + n] == t);
        }
        if exists|c: int|
            0 <= c < r.runtime.len() && (#[trigger] r.runtime[c]).event_id is Some && r.runtime[c].start == t {
            let e = choose|c: int|
                0 <= c < r.runtime.len() && (#[trigger] r.runtime[c]).event_id is Some && r.runtime[c].start == t;
            let x = lemma_concat_has(r.runtime.len() as int, f, e, 0);
            assert(all[a.len() + b.len() + c.len() + x] == t);
        }
    }
}

/// The timeline counts from the first start of anything that is shown.
pub proof fn lemma_origin_is_first(report: Seq<char>, r: Recorded)
    requires
        origin(r) is Some,
    ensures
        starts_at(r, trace_scene(report, r).origin_ns),
        forall|t: i64| #[trigger] starts_at(r, t) ==> trace_scene(report, r).origin_ns <= t,
{
    lemma_earliest(shown_starts(r));
    lemma_shown_starts(r);
    let all = shown_starts(r);
    assert(all.contains(origin(r)->0));
    assert forall|t: i64| #[trigger] starts_at(r, t) implies origin(r)->0 <= t by {
        assert(all.contains(t));
        let x = choose|x: int| 0 <= x < all.len() && all[x] == t;
        assert(origin(r)->0 <= all[x]);
    }
}

/// Aligned times count from the earliest start of the ranges that measure the first
/// batch, or, where there is none, from the first start of anything that is shown.
pub proof fn lemma_anchor_is_first_batch(report: Seq<char>, r: Recorded)
    requires
        origin(r) is Some,
    ensures
        ({
            let t = trace_scene(report, r).anchor_ns;
            let measured = exists|n: int| 0 <= n < r.nvtx.len() && measures_first_batch(#[trigger] r.nvtx[n]);
            &&& measured ==> exists|n: int|
                0 <= n < r.nvtx.len() && measures_first_batch(#[trigger] r.nvtx[n]) && r.nvtx[n].start == t
            &&& forall|n: int|
                0 <= n < r.nvtx.len() && measures_first_batch(#[trigger] r.nvtx[n]) ==> t <= r.nvtx[n].start
            &&& !measured ==> t == trace_scene(report, r).origin_ns
            &&& earliest(batch_starts(r)) is Some <==> measured
            &&& anchor(r) == Some(t)
        }),
{
    lemma_earliest(batch_starts(r));
    lemma_batch_starts(r);
    let all = batch_starts(r);
    if earliest(all) is Some {
        assert(all.contains(earliest(all)->0));
    }
    assert forall|n: int| 0 <= n < r.nvtx.len() && measures_first_batch(#[trigger] r.nvtx[n]) implies earliest(all)
        is Some && earliest(all)->0 <= r.nvtx[n].start by {
        assert(all.contains(r.nvtx[n].start));
        let x = choose|x: int| 0 <= x < all.len() && all[x] == r.nvtx[n].start;
        assert(earliest(all)->0 <= all[x]);
    }
}

/// The anchor that a conversion reports is the start of a range that measures the first
/// batch, no later than any other such start, if there is one; and otherwise the first
/// start of anything that is shown. The conversion says which.
pub proof fn lemma_reported_anchor(report: Seq<char>, r: Recorded, conversion: Conversion)
    requires
        converted(report, r, Ok(conversion)),
    ensures
        conversion.summary.measured <==> exists|n: int|
            0 <= n < r.nvtx.len() && measures_first_batch(#[trigger] r.nvtx[n]),
        conversion.summary.measured ==> exists|n: int|
            0 <= n < r.nvtx.len() && measures_first_batch(#[trigger] r.nvtx[n]) && r.nvtx[n].start
                == conversion.summary.anchor_ns,
        forall|n: int|
            0 <= n < r.nvtx.len() && measures_first_batch(#[trigger] r.nvtx[n]) ==> conversion.summary.anchor_ns
                <= r.nvtx[n].start,
        !conversion.summary.measured ==> starts_at(r, conversion.summary.anchor_ns) && forall|t: i64| #[trigger]
            starts_at(r, t) ==> conversion.summary.anchor_ns <= t,
{
    lemma_anchor_is_first_batch(report, r);
    lemma_origin_is_first(report, r);
}

/// A conversion finds nothing to show exactly when nothing starts.
pub proof fn lemma_nothing_to_show(report: Seq<char>, r: Recorded)
    ensures
        converted(report, r, Err(TraceError::NoEvents)) <==> forall|t: i64| !#[trigger] starts_at(r, t),
        (forall|t: i64| !#[trigger] starts_at(r, t)) <==> {
            &&& r.kernels.len() == 0
            &&& r.memcpys.len() == 0
            &&& r.nvtx.len() == 0
            &&& forall|c: int| 0 <= c < r.runtime.len() ==> (#[trigger] r.runtime[c]).event_id is None
        },
{
    lemma_earliest(shown_starts(r));
    lemma_shown_starts(r);
    let all = shown_starts(r);
    if origin(r) is Some {
        assert(all.contains(origin(r)->0));
        assert(starts_at(r, origin(r)->0));
    } else {
        assert forall|t: i64| !#[trigger] starts_at(r, t) by {
            assert(!all.contains(t));
        }
    }
    if forall|t: i64| !#[trigger] starts_at(r, t) {
        if r.kernels.len() > 0 {
            assert(starts_at(r, r.kernels[0].start));
        }
        if r.memcpys.len() > 0 {
            assert(starts_at(r, r.memcpys[0].start));
        }
        if r.nvtx.len() > 0 {
            assert(starts_at(r, r.nvtx[0].start));
        }
        assert forall|c: int| 0 <= c < r.runtime.len() implies (#[trigger] r.runtime[c]).event_id is None by {
            assert(!starts_at(r, r.runtime[c].start));
        }
    }
}

/// The positions of the copies of these kinds.
pub open spec fn copies_of_kinds(r: Recorded, kinds: Set<i64>) -> Set<int> {
    Set::new(|i: int| 0 <= i < r.memcpys.len() && kinds.contains(r.memcpys[i].copy_kind))
}

/// The envelopes of the first `n` ranges: a range and a device.
pub open spec fn envelope_set(nvtx: Seq<NvtxRange>, n: int) -> Set<(int, i64)> {
    Set::new(|e: (int, i64)| 0 <= e.0 < n && nvtx[e.0].kernel_bounds@.contains_key(e.1))
}

proof fn lemma_envelope_count(nvtx: Seq<NvtxRange>, n: int)
    requires
        0 <= n <= nvtx.len(),
    ensures
        envelope_set(nvtx, n).finite(),
        envelopes(nvtx, n) == envelope_set(nvtx, n).len(),
    decreases n,
{
    let all = envelope_set(nvtx, n);
    if n == 0 {
        assert(all =~= Set::empty());
    } else {
        lemma_envelope_count(nvtx, n - 1);
        let rest = envelope_set(nvtx, n - 1);
        let devices = nvtx[n - 1].kernel_bounds@.dom();
        vstd::std_specs::btree::axiom_btree_map_view_finite_dom(nvtx[n - 1].kernel_bounds);
        lemma_paired_count(n - 1, devices);
        let new = Set::new(|e: (int, i64)| e.0 == n - 1 && devices.contains(e.1));
        assert(all =~= rest.union(new));
        assert(rest.disjoint(new));
        vstd::set_lib::lemma_set_disjoint_lens(rest, new);
    }
}

proof fn lemma_paired_count(a: int, devices: Set<i64>)
    requires
        devices.finite(),
    ensures
        Set::new(|e: (int, i64)| e.0 == a && devices.contains(e.1)).finite(),
        Set::new(|e: (int, i64)| e.0 == a && devices.contains(e.1)).len() == devices.len(),
    decreases devices.len(),
{
    let all = Set::new(|e: (int, i64)| e.0 == a && devices.contains(e.1));
    if devices.len() == 0 {
        assert(devices =~= Set::empty());
        assert(all =~= Set::empty());
    } else {
        let d = devices.choose();
        let fewer = devices.remove(d);
        lemma_paired_count(a, fewer);
        let rest = Set::new(|e: (int, i64)| e.0 == a && fewer.contains(e.1));
        assert(all =~= rest.insert((a, d)));
    }
}

/// The figures of a conversion count what they are named after.
pub proof fn lemma_figures(report: Seq<char>, r: Recorded, conversion: Conversion)
    requires
        converted(report, r, Ok(conversion)),
    ensures
        ({
            let f = conversion.summary;
            &&& f.kernels == r.kernels.len()
            &&& f.memcpy == r.memcpys.len()
            &&& f.nvtx == r.nvtx.len()
            &&& f.cuda_api == Set::new(|c: int| 0 <= c < r.runtime.len() && r.runtime[c].event_id is Some).len()
            &&& f.h2d == copies_of_kinds(r, set![1i64, 11i64]).len()
            &&& f.d2h == copies_of_kinds(r, set![2i64, 12i64]).len()
            &&& f.d2d == copies_of_kinds(r, set![3i64, 8i64, 13i64]).len()
            &&& f.nvtx_kernel == envelope_set(r.nvtx, r.nvtx.len() as int).len()
            &&& f.stream_dependencies == 0
            &&& conversion.timeline.dependencies@.len() == 0
            &&& f.json_events == conversion.timeline.events@.len()
            &&& conversion.timeline.json_events == conversion.timeline.events@.len()
            &&& f.parquet_rows == conversion.timeline.rows@.len()
            &&& f.pcie_usage_launch_dependencies == conversion.timeline.pcie_usage_launch_dependencies
        }),
{
    let n = r.memcpys.len() as int;
    let a = |c: int| visible(r.runtime[c]);
    let p = |i: int| is_host_to_device(r.memcpys[i].copy_kind);
    let q = |i: int| is_device_to_host(r.memcpys[i].copy_kind);
    let w = |i: int| is_device_to_device(r.memcpys[i].copy_kind);
    lemma_count_is_size(r.runtime.len() as int, a);
    lemma_count_is_size(n, p);
    lemma_count_is_size(n, q);
    lemma_count_is_size(n, w);
    assert(Set::new(|c: int| 0 <= c < r.runtime.len() && r.runtime[c].event_id is Some) =~= Set::new(
        |c: int| 0 <= c < r.runtime.len() && a(c),
    ));
    assert(copies_of_kinds(r, set![1i64, 11i64]) =~= Set::new(|i: int| 0 <= i < n && p(i)));
    assert(copies_of_kinds(r, set![2i64, 12i64]) =~= Set::new(|i: int| 0 <= i < n && q(i)));
    assert(copies_of_kinds(r, set![3i64, 8i64, 13i64]) =~= Set::new(|i: int| 0 <= i < n && w(i)));
    lemma_envelope_count(r.nvtx, r.nvtx.len() as int);
    assert(drawn(trace_scene(report, r), Ok(conversion.timeline)));
    assert(event_views(conversion.timeline.events@).len() == conversion.timeline.events@.len());
}

/// A line with one more figure.
pub open spec fn with_figure(line: Seq<char>, label: Seq<char>, n: int) -> Seq<char> {
    line + label + decimal(n)
}

/// The summary line tells the report and then every figure under its label.
pub proof fn lemma_summary_line(report: Seq<char>, f: Summary)
    ensures
        ({
            let line = "report="@ + report;
            let line = with_figure(line, " kernels="@, f.kernels as int);
            let line = with_figure(line, " cuda_api="@, f.cuda_api as int);
            let line = with_figure(line, " cuda_sync_api="@, f.links.cuda_sync_api as int);
            let line = with_figure(line, " launch_dependencies="@, f.links.launch_dependencies as int);
            let line = with_figure(line, " core_launch_dependencies="@, f.links.launch_dependencies as int);
            let line = with_figure(line, " memcpy="@, f.memcpy as int);
            let line = with_figure(line, " h2d="@, f.h2d as int);
            let line = with_figure(line, " d2h="@, f.d2h as int);
            let line = with_figure(line, " d2d="@, f.d2d as int);
            let line = with_figure(line, " memcpy_launch_dependencies="@, f.links.memcpy_launch_dependencies as int);
            let line = with_figure(line, " pcie_usage_launch_dependencies="@, f.pcie_usage_launch_dependencies as int);
            let line = with_figure(line, " nvtx="@, f.nvtx as int);
            let line = with_figure(line, " nvtx_kernel="@, f.nvtx_kernel as int);
            let line = with_figure(line, " stream_dependencies="@, f.stream_dependencies as int);
            let line = with_figure(line, " json_events="@, f.json_events as int);
            let line = with_figure(line, " parquet_rows="@, f.parquet_rows as int);
            let line = with_figure(line, " anchor_ns="@, f.anchor_ns as int);
            summary_text(report, f) == line + " alignment_anchor="@ + (if f.measured {
                "critical_path_batch_0"@
            } else {
                "first_trace_event"@
            })
        }),
{
}

} // verus!
