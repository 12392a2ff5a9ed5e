//! From the records of a trace to its timeline.
use crate::devices::{is_device_to_device, is_device_to_host, is_host_to_device};
use crate::emit::{draw_planned, drawn, Timeline};
use crate::event::row_views;
use crate::laws::{fresh, lemma_fresh_traces_convert};
use crate::link::{
    assign_kernel_ids, call_id, copies_linked, copy_launch, is_sync_name, kernel_id, kernel_key, kernel_launch,
    kernel_streams, kernels_linked, link_runtime_calls_to_gpu_activities, linked_id, mark_cuda_sync_calls,
    mark_unlinked_calls, same_but_ids, stream_position,
};
use crate::model::{smaller, Kernel, Memcpy, NvtxRange, RuntimeCall};
use crate::order::{lemma_integers_keyed, lemma_lists_is_ordered, lists, ordered};
use crate::project::{
    append_new, bounds_projected, bounds_settled, call_moments, project_nvtx_to_kernels, projected, projected_kernels,
    projects, region_names,
};
use crate::ranges::range_rows;
use crate::scene::{
    bound_devices, is_placeable, lists_devices, placeable, plan_timeline, visible, EmitInput, Plan, Scene,
};
use crate::seqs::{concat, count_where, lemma_concat_grows, lemma_count_bound};
use crate::slices::{emit_error_text, EmitError};
use crate::text::{append_count, append_decimal, copied, decimal, ends_with, opt_text, starts_with, texts};
use vstd::prelude::*;
use vstd::string::StringExecFns;

verus! {

/// The records of a trace.
pub struct Records {
    pub kernels: Vec<Kernel>,
    pub memcpys: Vec<Memcpy>,
    pub runtime: Vec<RuntimeCall>,
    pub nvtx: Vec<NvtxRange>,
}

pub struct Recorded {
    pub kernels: Seq<Kernel>,
    pub memcpys: Seq<Memcpy>,
    pub runtime: Seq<RuntimeCall>,
    pub nvtx: Seq<NvtxRange>,
}

impl View for Records {
    type V = Recorded;

    open spec fn view(&self) -> Recorded {
        Recorded { kernels: self.kernels@, memcpys: self.memcpys@, runtime: self.runtime@, nvtx: self.nvtx@ }
    }
}

/// The identifier that a call ends up with: a call is shown when it started an
/// activity, when it synchronizes, or when the trace holds no activity at all.
pub open spec fn shown_id(report: Seq<char>, r: Recorded, c: int) -> Option<Seq<char>> {
    if r.kernels.len() == 0 && r.memcpys.len() == 0 {
        Some(call_id(report, ":cuda_api_unlinked:"@, r.runtime[c], c))
    } else if linked_id(report, r.kernels, r.memcpys, r.runtime, c) is Some {
        linked_id(report, r.kernels, r.memcpys, r.runtime, c)
    } else if is_sync_name(r.runtime[c].name@) {
        Some(call_id(report, ":cuda_api_sync:"@, r.runtime[c], c))
    } else {
        None
    }
}

pub open spec fn calls_prepared(report: Seq<char>, before: Recorded, after: Seq<RuntimeCall>) -> bool {
    &&& same_but_ids(before.runtime, after)
    &&& forall|c: int| 0 <= c < after.len() ==> opt_text((#[trigger] after[c]).event_id) == shown_id(report, before, c)
}

/// A kernel with its launch, its place on its stream, its identifier and the names
/// of the ranges that it was launched from.
pub open spec fn kernel_prepared(report: Seq<char>, before: Recorded, k: int, after: Kernel) -> bool {
    let kernel = before.kernels[k];
    &&& after == (Kernel {
        launch_call: match kernel_launch(before.runtime, kernel) {
            Some(c) => Some(c),
            None => kernel.launch_call,
        },
        sequence: stream_position(before.kernels, k) as u64,
        event_id: after.event_id,
        nvtx_regions: after.nvtx_regions,
        ..kernel
    })
    &&& after.sequence == stream_position(before.kernels, k)
    &&& after.event_id@ == kernel_id(report, kernel, stream_position(before.kernels, k) as int)
    &&& texts(after.nvtx_regions@) == append_new(
        texts(kernel.nvtx_regions@),
        region_names(kernel, before.runtime, before.nvtx),
    )
}

pub open spec fn kernels_prepared(report: Seq<char>, before: Recorded, after: Seq<Kernel>) -> bool {
    &&& after.len() == before.kernels.len()
    &&& forall|k: int| 0 <= k < after.len() ==> kernel_prepared(report, before, k, #[trigger] after[k])
}

/// The records of `after` are those of `before`, linked, named and projected.
pub open spec fn prepared(report: Seq<char>, before: Recorded, after: Recorded) -> bool {
    &&& calls_prepared(report, before, after.runtime)
    &&& kernels_prepared(report, before, after.kernels)
    &&& copies_linked(report, before.memcpys, before.runtime, after.memcpys)
    &&& bounds_projected(before.nvtx, before.kernels, before.runtime, after.nvtx)
}

/// How many activities were linked to calls, and how many calls synchronize.
#[derive(Debug, Clone, Copy, PartialEq, Eq, Structural)]
pub struct Links {
    pub launch_dependencies: usize,
    pub memcpy_launch_dependencies: usize,
    pub cuda_sync_api: usize,
}

pub open spec fn kernel_links(r: Recorded) -> nat {
    count_where(r.kernels.len() as int, |k: int| kernel_launch(r.runtime, r.kernels[k]) is Some)
}

pub open spec fn copy_links(r: Recorded) -> nat {
    count_where(r.memcpys.len() as int, |i: int| copy_launch(r.runtime, r.memcpys[i]) is Some)
}

pub open spec fn sync_calls(r: Recorded) -> nat {
    count_where(r.runtime.len() as int, |c: int| is_sync_name(r.runtime[c].name@))
}

proof fn lemma_moments_same(before: Seq<RuntimeCall>, after: Seq<RuntimeCall>, key: (i64, i64))
    requires
        same_but_ids(before, after),
    ensures
        call_moments(after, key) == call_moments(before, key),
{
    assert forall|m: (i64, usize)| call_moments(after, key).contains(m) <==> call_moments(before, key).contains(m) by {
        if m.1 < before.len() {
            let c = m.1 as int;
            assert(after[c] == (RuntimeCall { event_id: after[c].event_id, ..before[c] }));
        }
    }
    assert(call_moments(after, key) =~= call_moments(before, key));
}

/// Whether a kernel projects to a range rests on neither identifiers nor launches.
proof fn lemma_projected_same(
    kernel: Kernel,
    kernel1: Kernel,
    before: Seq<RuntimeCall>,
    after: Seq<RuntimeCall>,
    range: NvtxRange,
)
    requires
        same_but_ids(before, after),
        kernel1.global_pid == kernel.global_pid,
        kernel1.correlation == kernel.correlation,
    ensures
        projected(kernel1, after, range) <==> projected(kernel, before, range),
{
    if projected(kernel1, after, range) {
        let c = choose|c: int| 0 <= c < after.len() && projects(kernel1, #[trigger] after[c], range);
        assert(after[c] == (RuntimeCall { event_id: after[c].event_id, ..before[c] }));
        assert(projects(kernel, before[c], range));
    }
    if projected(kernel, before, range) {
        let c = choose|c: int| 0 <= c < before.len() && projects(kernel, #[trigger] before[c], range);
        assert(after[c] == (RuntimeCall { event_id: after[c].event_id, ..before[c] }));
        assert(projects(kernel1, after[c], range));
    }
}

proof fn lemma_bounds_same(
    nvtx: Seq<NvtxRange>,
    kernels: Seq<Kernel>,
    kernels1: Seq<Kernel>,
    before: Seq<RuntimeCall>,
    after: Seq<RuntimeCall>,
    settled: Seq<NvtxRange>,
)
    requires
        same_but_ids(before, after),
        kernels_linked(kernels, before, kernels1),
        bounds_projected(nvtx, kernels1, after, settled),
    ensures
        bounds_projected(nvtx, kernels, before, settled),
{
    assert forall|r: int, d: i64| 0 <= r < nvtx.len() implies #[trigger] bounds_settled(
        nvtx[r],
        kernels,
        before,
        settled[r],
        d,
    ) by {
        assert(bounds_settled(nvtx[r], kernels1, after, settled[r], d));
        let a = projected_kernels(kernels1, after, nvtx[r], d);
        let b = projected_kernels(kernels, before, nvtx[r], d);
        assert forall|k: int| a.contains(k) <==> b.contains(k) by {
            if 0 <= k < kernels.len() {
                assert(kernels1[k].device == kernels[k].device);
                lemma_projected_same(kernels[k], kernels1[k], before, after, nvtx[r]);
            }
        }
        assert(a =~= b);
        assert forall|k: int| #[trigger] a.contains(k) implies kernels1[k].start == kernels[k].start
            && kernels1[k].end == kernels[k].end by {
            assert(0 <= k < kernels.len());
        }
    }
}

/// Links, names and projects the records of a trace.
pub fn prepare(report: &str, records: &mut Records) -> (links: Links)
    ensures
        prepared(report@, old(records)@, final(records)@),
        links.launch_dependencies == kernel_links(old(records)@),
        links.memcpy_launch_dependencies == copy_links(old(records)@),
        links.cuda_sync_api == sync_calls(old(records)@),
{
    let ghost before = records@;
    let (launch_dependencies, memcpy_launch_dependencies) = link_runtime_calls_to_gpu_activities(
        report,
        records.kernels.as_mut_slice(),
        records.memcpys.as_mut_slice(),
        records.runtime.as_mut_slice(),
    );
    let ghost linked = records@;
    let cuda_sync_api: usize = mark_cuda_sync_calls(report, records.runtime.as_mut_slice());
    let ghost marked = records@;
    if records.kernels.is_empty() && records.memcpys.is_empty() {
        mark_unlinked_calls(report, records.runtime.as_mut_slice());
    }
    proof {
        let after = records@.runtime;
        assert forall|c: int| 0 <= c < before.runtime.len() implies {
            &&& #[trigger] after[c] == (RuntimeCall { event_id: after[c].event_id, ..before.runtime[c] })
            &&& opt_text(after[c].event_id) == shown_id(report@, before, c)
        } by {
            assert(linked.runtime[c] == (RuntimeCall { event_id: linked.runtime[c].event_id, ..before.runtime[c] }));
            assert(marked.runtime[c] == (RuntimeCall { event_id: marked.runtime[c].event_id, ..linked.runtime[c] }));
        }
        assert(calls_prepared(report@, before, after));
        let a = |c: int| is_sync_name(linked.runtime[c].name@);
        let b = |c: int| is_sync_name(before.runtime[c].name@);
        lemma_counts_same(before.runtime.len() as int, a, b);
    }
    project_nvtx_to_kernels(records.kernels.as_mut_slice(), records.nvtx.as_mut_slice(), records.runtime.as_slice());
    let ghost projected = records@;
    assign_kernel_ids(report, records.kernels.as_mut_slice());
    proof {
        let after = records@;
        lemma_bounds_same(before.nvtx, before.kernels, linked.kernels, before.runtime, after.runtime, after.nvtx);
        assert(kernel_streams(projected.kernels) =~= kernel_streams(before.kernels));
        assert forall|k: int| 0 <= k < after.kernels.len() implies kernel_prepared(
            report@,
            before,
            k,
            #[trigger] after.kernels[k],
        ) by {
            let kernel = before.kernels[k];
            assert(linked.kernels[k].global_pid == kernel.global_pid);
            assert(projected.kernels[k] == (Kernel {
                nvtx_regions: projected.kernels[k].nvtx_regions,
                ..linked.kernels[k]
            }));
            lemma_moments_same(before.runtime, after.runtime, kernel_key(kernel));
            assert(region_names(linked.kernels[k], after.runtime, before.nvtx) == region_names(
                kernel,
                before.runtime,
                before.nvtx,
            ));
            assert(stream_position(projected.kernels, k) == stream_position(before.kernels, k));
        }
    }
    Links { launch_dependencies, memcpy_launch_dependencies, cuda_sync_api }
}

proof fn lemma_counts_same(n: int, a: spec_fn(int) -> bool, b: spec_fn(int) -> bool)
    requires
        forall|i: int| 0 <= i < n ==> #[trigger] a(i) == b(i),
    ensures
        count_where(n, a) == count_where(n, b),
    decreases n,
{
    if n > 0 {
        lemma_counts_same(n - 1, a, b);
    }
}

/// The smallest number of a list.
pub open spec fn earliest(list: Seq<i64>) -> Option<i64>
    decreases list.len(),
{
    if list.len() == 0 {
        None
    } else {
        match earliest(list.drop_last()) {
            Some(t) => Some(smaller(t, list.last())),
            None => Some(list.last()),
        }
    }
}

/// The smallest number of a list is in the list and no number of the list is smaller;
/// only an empty list has none.
pub proof fn lemma_earliest(list: Seq<i64>)
    ensures
        earliest(list) is None <==> list.len() == 0,
        earliest(list) matches Some(t) ==> list.contains(t) && forall|i: int|
            0 <= i < list.len() ==> t <= #[trigger] list[i],
    decreases list.len(),
{
    if list.len() > 0 {
        let rest = list.drop_last();
        lemma_earliest(rest);
        assert(list[list.len() - 1] == list.last());
        if let Some(t) = earliest(rest) {
            let i = choose|i: int| 0 <= i < rest.len() && rest[i] == t;
            assert(list[i] == t);
        }
        assert forall|i: int| 0 <= i < list.len() implies earliest(list)->0 <= #[trigger] list[i] by {
            if i < rest.len() {
                assert(rest[i] == list[i]);
            }
        }
    }
}

fn earliest_of(list: &Vec<i64>) -> (t: Option<i64>)
    ensures
        t == earliest(list@),
{
    let mut t: Option<i64> = None;
    for i in 0..list.len()
        invariant
            t == earliest(list@.take(i as int)),
    {
        assert(list@.take(i + 1).drop_last() =~= list@.take(i as int));
        t = match t {
            Some(best) => {
                if best <= list[i] {
                    Some(best)
                } else {
                    Some(list[i])
                }
            },
            None => Some(list[i]),
        };
    }
    assert(list@.take(list@.len() as int) =~= list@);
    t
}

/// When the events of the timeline start: kernels, copies, ranges and shown calls.
pub open spec fn shown_starts(r: Recorded) -> Seq<i64> {
    Seq::new(r.kernels.len(), |k: int| r.kernels[k].start) + Seq::new(r.memcpys.len(), |i: int| r.memcpys[i].start)
        + Seq::new(r.nvtx.len(), |n: int| r.nvtx[n].start) + concat(
        r.runtime.len() as int,
        |c: int| call_start(r.runtime[c]),
    )
}

pub open spec fn call_start(call: RuntimeCall) -> Seq<i64> {
    if visible(call) {
        seq![call.start]
    } else {
        Seq::empty()
    }
}

fn collect_starts(r: &Records) -> (starts: Vec<i64>)
    ensures
        starts@ == shown_starts(r@),
{
    let mut starts: Vec<i64> = Vec::new();
    for k in 0..r.kernels.len()
        invariant
            starts@ == Seq::new(k as nat, |k: int| r.kernels@[k].start),
    {
        starts.push(r.kernels[k].start);
        assert(starts@ =~= Seq::new((k + 1) as nat, |k: int| r.kernels@[k].start));
    }
    let ghost kernel_starts = starts@;
    for i in 0..r.memcpys.len()
        invariant
            starts@ == kernel_starts + Seq::new(i as nat, |i: int| r.memcpys@[i].start),
    {
        starts.push(r.memcpys[i].start);
        assert(starts@ =~= kernel_starts + Seq::new((i + 1) as nat, |i: int| r.memcpys@[i].start));
    }
    let ghost activity_starts = starts@;
    for n in 0..r.nvtx.len()
        invariant
            starts@ == activity_starts + Seq::new(n as nat, |n: int| r.nvtx@[n].start),
    {
        starts.push(r.nvtx[n].start);
        assert(starts@ =~= activity_starts + Seq::new((n + 1) as nat, |n: int| r.nvtx@[n].start));
    }
    let ghost event_starts = starts@;
    let ghost f = |c: int| call_start(r.runtime@[c]);
    assert(starts@ =~= event_starts + concat(0, f));
    for c in 0..r.runtime.len()
        invariant
            f == (|c: int| call_start(r.runtime@[c])),
            starts@ == event_starts + concat(c as int, f),
    {
        if r.runtime[c].event_id.is_some() {
            starts.push(r.runtime[c].start);
        }
        assert(starts@ =~= event_starts + concat(c + 1, f));
    }
    starts
}

/// A range that marks the first measured batch.
pub open spec fn is_first_batch(name: Seq<char>) -> bool {
    "CriticalPath/MeasuredBatch/"@.is_prefix_of(name) && "/batch_0"@.is_suffix_of(name)
}

pub open spec fn batch_start(range: NvtxRange) -> Seq<i64> {
    if is_first_batch(range.name@) {
        seq![range.start]
    } else {
        Seq::empty()
    }
}

pub open spec fn batch_starts(r: Recorded) -> Seq<i64> {
    concat(r.nvtx.len() as int, |n: int| batch_start(r.nvtx[n]))
}

fn collect_batch_starts(r: &Records) -> (starts: Vec<i64>)
    ensures
        starts@ == batch_starts(r@),
{
    let mut starts: Vec<i64> = Vec::new();
    let ghost f = |n: int| batch_start(r.nvtx@[n]);
    for n in 0..r.nvtx.len()
        invariant
            f == (|n: int| batch_start(r.nvtx@[n])),
            starts@ == concat(n as int, f),
    {
        let name = r.nvtx[n].name.as_str();
        if starts_with(name, "CriticalPath/MeasuredBatch/") && ends_with(name, "/batch_0") {
            starts.push(r.nvtx[n].start);
        }
        assert(starts@ =~= concat(n + 1, f));
    }
    starts
}

/// The first instant of the timeline.
pub open spec fn origin(r: Recorded) -> Option<i64> {
    earliest(shown_starts(r))
}

/// The instant that aligned times count from: the start of the first measured batch,
/// or else the first instant of the timeline.
pub open spec fn anchor(r: Recorded) -> Option<i64> {
    match earliest(batch_starts(r)) {
        Some(t) => Some(t),
        None => origin(r),
    }
}

/// What is drawn of prepared records.
pub open spec fn trace_scene(report: Seq<char>, r: Recorded) -> Scene {
    Scene {
        report,
        kernels: r.kernels,
        memcpys: r.memcpys,
        runtime: r.runtime,
        nvtx: r.nvtx,
        origin_ns: origin(r)->0,
        anchor_ns: anchor(r)->0,
    }
}

/// How many kernel envelopes the first `n` ranges have.
pub open spec fn envelopes(nvtx: Seq<NvtxRange>, n: int) -> nat
    decreases n,
{
    if n <= 0 {
        0
    } else {
        envelopes(nvtx, n - 1) + nvtx[n - 1].kernel_bounds@.dom().len()
    }
}

/// The figures that a conversion reports.
#[derive(Debug, Clone, Copy, PartialEq, Eq, Structural)]
pub struct Summary {
    pub kernels: usize,
    pub cuda_api: usize,
    pub links: Links,
    pub memcpy: usize,
    pub h2d: usize,
    pub d2h: usize,
    pub d2d: usize,
    pub pcie_usage_launch_dependencies: usize,
    pub nvtx: usize,
    pub nvtx_kernel: usize,
    pub stream_dependencies: usize,
    pub json_events: usize,
    pub parquet_rows: usize,
    pub anchor_ns: i64,
    pub measured: bool,
}

impl Summary {
    /// The figures are those of the records and their timeline.
    pub open spec fn tells(self, r: Recorded, timeline: Timeline) -> bool {
        &&& self.kernels == r.kernels.len()
        &&& self.cuda_api == count_where(r.runtime.len() as int, |c: int| visible(r.runtime[c]))
        &&& self.memcpy == r.memcpys.len()
        &&& self.h2d == count_where(r.memcpys.len() as int, |i: int| is_host_to_device(r.memcpys[i].copy_kind))
        &&& self.d2h == count_where(r.memcpys.len() as int, |i: int| is_device_to_host(r.memcpys[i].copy_kind))
        &&& self.d2d == count_where(r.memcpys.len() as int, |i: int| is_device_to_device(r.memcpys[i].copy_kind))
        &&& self.pcie_usage_launch_dependencies == timeline.pcie_usage_launch_dependencies
        &&& self.nvtx == r.nvtx.len()
        &&& self.nvtx_kernel == envelopes(r.nvtx, r.nvtx.len() as int)
        &&& self.stream_dependencies == timeline.dependencies@.len()
        &&& self.json_events == timeline.json_events
        &&& self.parquet_rows == timeline.rows@.len()
        &&& Some(self.anchor_ns) == anchor(r)
        &&& self.measured == (earliest(batch_starts(r)) is Some)
    }
}

/// Why a trace has no timeline.
#[derive(Debug, Clone, Copy, PartialEq, Eq, Structural)]
pub enum TraceError {
    /// Nothing in the trace can be shown.
    NoEvents,
    /// A record refers to a call or a device that has no place on the timeline.
    Unplaceable,
    /// An activity refers to a call that is not shown.
    Emit(EmitError),
}

pub open spec fn trace_error_text(e: TraceError) -> Seq<char> {
    match e {
        TraceError::NoEvents => "trace contains no CUDA kernel, memcpy, linked API, or NVTX ranges"@,
        TraceError::Unplaceable => "a record refers to a call or device without a track"@,
        TraceError::Emit(inner) => emit_error_text(inner),
    }
}

impl TraceError {
    pub fn message(&self) -> (text: &'static str)
        ensures
            text@ == trace_error_text(*self),
    {
        match self {
            TraceError::NoEvents => "trace contains no CUDA kernel, memcpy, linked API, or NVTX ranges",
            TraceError::Unplaceable => "a record refers to a call or device without a track",
            TraceError::Emit(inner) => inner.message(),
        }
    }
}

/// A converted trace.
pub struct Conversion {
    pub timeline: Timeline,
    pub summary: Summary,
}

fn count_visible(runtime: &Vec<RuntimeCall>) -> (n: usize)
    ensures
        n == count_where(runtime@.len() as int, |c: int| visible(runtime@[c])),
{
    let ghost p = |c: int| visible(runtime@[c]);
    let mut n: usize = 0;
    for c in 0..runtime.len()
        invariant
            p == (|c: int| visible(runtime@[c])),
            n == count_where(c as int, p),
    {
        proof {
            lemma_count_bound(c as int, p);
        }
        if runtime[c].event_id.is_some() {
            n = n + 1;
        }
    }
    n
}

/// How many copies go from host to device, from device to host and between devices.
fn count_directions(memcpys: &Vec<Memcpy>) -> (n: (usize, usize, usize))
    ensures
        n.0 == count_where(memcpys@.len() as int, |i: int| is_host_to_device(memcpys@[i].copy_kind)),
        n.1 == count_where(memcpys@.len() as int, |i: int| is_device_to_host(memcpys@[i].copy_kind)),
        n.2 == count_where(memcpys@.len() as int, |i: int| is_device_to_device(memcpys@[i].copy_kind)),
{
    let ghost p = |i: int| is_host_to_device(memcpys@[i].copy_kind);
    let ghost q = |i: int| is_device_to_host(memcpys@[i].copy_kind);
    let ghost w = |i: int| is_device_to_device(memcpys@[i].copy_kind);
    let mut h2d: usize = 0;
    let mut d2h: usize = 0;
    let mut d2d: usize = 0;
    for i in 0..memcpys.len()
        invariant
            p == (|i: int| is_host_to_device(memcpys@[i].copy_kind)),
            q == (|i: int| is_device_to_host(memcpys@[i].copy_kind)),
            w == (|i: int| is_device_to_device(memcpys@[i].copy_kind)),
            h2d == count_where(i as int, p),
            d2h == count_where(i as int, q),
            d2d == count_where(i as int, w),
    {
        proof {
            lemma_count_bound(i as int, p);
            lemma_count_bound(i as int, q);
            lemma_count_bound(i as int, w);
        }
        match memcpys[i].copy_kind {
            1 | 11 => {
                h2d = h2d + 1;
            },
            2 | 12 => {
                d2h = d2h + 1;
            },
            3 | 8 | 13 => {
                d2d = d2d + 1;
            },
            _ => {},
        }
    }
    (h2d, d2h, d2d)
}

proof fn lemma_envelopes_have_rows(s: Scene, n: int)
    requires
        0 <= n <= s.nvtx.len(),
        forall|r: int| 0 <= r < s.nvtx.len() ==> lists(#[trigger] ordered(bound_devices(s, r)), bound_devices(s, r)),
    ensures
        envelopes(s.nvtx, n) <= concat(n, |r: int| range_rows(s, r)).len(),
    decreases n,
{
    if n > 0 {
        lemma_envelopes_have_rows(s, n - 1);
        let v = ordered(bound_devices(s, n - 1));
        lemma_integers_keyed();
        lemma_lists_is_ordered(v, bound_devices(s, n - 1));
        v.unique_seq_to_set();
        assert(range_rows(s, n - 1).len() >= v.len());
    }
}

/// Counts the kernel envelopes of all ranges.
fn count_envelopes(input: &EmitInput<'_>, plan: &Plan, timeline: &Timeline) -> (n: usize)
    requires
        plan.covers(input@),
        timeline.shows(input@),
    ensures
        n == envelopes(input@.nvtx, input@.nvtx.len() as int),
{
    let ghost s = input@;
    let total: usize = timeline.rows.len();
    let ghost f = |r: int| range_rows(s, r);
    proof {
        assert(row_views(timeline.rows@).len() == total);
        assert(concat(s.nvtx.len() as int, f).len() <= total);
        assert forall|r: int| 0 <= r < s.nvtx.len() implies lists(
            #[trigger] ordered(bound_devices(s, r)),
            bound_devices(s, r),
        ) by {
            assert(lists_devices(plan.ranges.bound_devices@[r]@, bound_devices(s, r)));
        }
    }
    let mut n: usize = 0;
    for r in 0..input.nvtx.len()
        invariant
            s == input@,
            plan.covers(s),
            f == (|r: int| range_rows(s, r)),
            concat(s.nvtx.len() as int, f).len() <= total,
            forall|r: int|
                0 <= r < s.nvtx.len() ==> lists(#[trigger] ordered(bound_devices(s, r)), bound_devices(s, r)),
            n == envelopes(s.nvtx, r as int),
    {
        proof {
            lemma_envelopes_have_rows(s, r + 1);
            lemma_concat_grows(f, r + 1, s.nvtx.len() as int);
            let v = plan.ranges.bound_devices@[r as int]@;
            assert(lists_devices(v, bound_devices(s, r as int)));
            lemma_integers_keyed();
            lemma_lists_is_ordered(v, bound_devices(s, r as int));
            v.unique_seq_to_set();
        }
        n = n + plan.ranges.bound_devices[r].len();
    }
    n
}

/// The text of a conversion's figures.
pub open spec fn summary_text(report: Seq<char>, f: Summary) -> Seq<char> {
    "report="@ + report + " kernels="@ + decimal(f.kernels as int) + " cuda_api="@ + decimal(f.cuda_api as int)
        + " cuda_sync_api="@ + decimal(f.links.cuda_sync_api as int) + " launch_dependencies="@ + decimal(
        f.links.launch_dependencies as int,
    ) + " core_launch_dependencies="@ + decimal(f.links.launch_dependencies as int) + " memcpy="@ + decimal(
        f.memcpy as int,
    ) + " h2d="@ + decimal(f.h2d as int) + " d2h="@ + decimal(f.d2h as int) + " d2d="@ + decimal(f.d2d as int)
        + " memcpy_launch_dependencies="@ + decimal(f.links.memcpy_launch_dependencies as int)
        + " pcie_usage_launch_dependencies="@ + decimal(f.pcie_usage_launch_dependencies as int) + " nvtx="@ + decimal(
        f.nvtx as int,
    ) + " nvtx_kernel="@ + decimal(f.nvtx_kernel as int) + " stream_dependencies="@ + decimal(
        f.stream_dependencies as int,
    ) + " json_events="@ + decimal(f.json_events as int) + " parquet_rows="@ + decimal(f.parquet_rows as int)
        + " anchor_ns="@ + decimal(f.anchor_ns as int) + " alignment_anchor="@ + (if f.measured {
        "critical_path_batch_0"@
    } else {
        "first_trace_event"@
    })
}

fn append_figure(line: &mut String, label: &str, n: usize)
    ensures
        final(line)@ == old(line)@ + label@ + decimal(n as int),
{
    line.append(label);
    append_count(line, n as u64);
}

/// The line that reports a conversion.
pub fn summary_line(report: &str, figures: &Summary) -> (line: String)
    ensures
        line@ == summary_text(report@, *figures),
{
    let mut line = copied("report=");
    line.append(report);
    append_figure(&mut line, " kernels=", figures.kernels);
    append_figure(&mut line, " cuda_api=", figures.cuda_api);
    append_figure(&mut line, " cuda_sync_api=", figures.links.cuda_sync_api);
    append_figure(&mut line, " launch_dependencies=", figures.links.launch_dependencies);
    append_figure(&mut line, " core_launch_dependencies=", figures.links.launch_dependencies);
    append_figure(&mut line, " memcpy=", figures.memcpy);
    append_figure(&mut line, " h2d=", figures.h2d);
    append_figure(&mut line, " d2h=", figures.d2h);
    append_figure(&mut line, " d2d=", figures.d2d);
    append_figure(&mut line, " memcpy_launch_dependencies=", figures.links.memcpy_launch_dependencies);
    append_figure(&mut line, " pcie_usage_launch_dependencies=", figures.pcie_usage_launch_dependencies);
    append_figure(&mut line, " nvtx=", figures.nvtx);
    append_figure(&mut line, " nvtx_kernel=", figures.nvtx_kernel);
    append_figure(&mut line, " stream_dependencies=", figures.stream_dependencies);
    append_figure(&mut line, " json_events=", figures.json_events);
    append_figure(&mut line, " parquet_rows=", figures.parquet_rows);
    line.append(" anchor_ns=");
    append_decimal(&mut line, figures.anchor_ns);
    line.append(" alignment_anchor=");
    line.append(
        if figures.measured {
            "critical_path_batch_0"
        } else {
            "first_trace_event"
        },
    );
    line
}

/// What converting prepared records gives.
pub open spec fn converted(report: Seq<char>, r: Recorded, outcome: Result<Conversion, TraceError>) -> bool {
    let s = trace_scene(report, r);
    match outcome {
        Ok(conversion) => {
            &&& origin(r) is Some
            &&& placeable(s)
            &&& drawn(s, Ok(conversion.timeline))
            &&& conversion.summary.tells(r, conversion.timeline)
        },
        Err(TraceError::NoEvents) => origin(r) is None,
        Err(TraceError::Unplaceable) => origin(r) is Some && !placeable(s),
        Err(TraceError::Emit(e)) => origin(r) is Some && placeable(s) && drawn(s, Err(e)),
    }
}

/// Converts the records of a trace, which are linked, named and projected on the way.
pub fn convert(report: &str, records: &mut Records) -> (outcome: Result<Conversion, TraceError>)
    ensures
        prepared(report@, old(records)@, final(records)@),
        converted(report@, final(records)@, outcome),
        outcome matches Ok(conversion) ==> {
            &&& conversion.summary.links.launch_dependencies == kernel_links(old(records)@)
            &&& conversion.summary.links.memcpy_launch_dependencies == copy_links(old(records)@)
            &&& conversion.summary.links.cuda_sync_api == sync_calls(old(records)@)
        },
        fresh(old(records)@) ==> (outcome is Err <==> shown_starts(final(records)@).len() == 0),
{
    let _call_count: usize = records.runtime.len();
    let ghost before = records@;
    let links = prepare(report, records);
    proof {
        lemma_earliest(shown_starts(records@));
        if fresh(before) {
            lemma_fresh_traces_convert(report@, before, records@);
        }
    }
    let starts = collect_starts(records);
    let batches = collect_batch_starts(records);
    let origin_ns: i64 = match earliest_of(&starts) {
        Some(t) => t,
        None => {
            return Err(TraceError::NoEvents);
        },
    };
    let batch = earliest_of(&batches);
    let anchor_ns: i64 = match batch {
        Some(t) => t,
        None => origin_ns,
    };
    let input = EmitInput {
        report,
        kernels: records.kernels.as_slice(),
        memcpys: records.memcpys.as_slice(),
        runtime: records.runtime.as_slice(),
        nvtx: records.nvtx.as_slice(),
        origin_ns,
        anchor_ns,
    };
    assert(input@ == trace_scene(report@, records@));
    let plan = plan_timeline(&input);
    if !is_placeable(&input, &plan) {
        return Err(TraceError::Unplaceable);
    }
    match draw_planned(&input, &plan) {
        Ok(timeline) => {
            let nvtx_kernel: usize = count_envelopes(&input, &plan, &timeline);
            let (h2d, d2h, d2d) = count_directions(&records.memcpys);
            let summary = Summary {
                kernels: records.kernels.len(),
                cuda_api: count_visible(&records.runtime),
                links,
                memcpy: records.memcpys.len(),
                h2d,
                d2h,
                d2d,
                pcie_usage_launch_dependencies: timeline.pcie_usage_launch_dependencies,
                nvtx: records.nvtx.len(),
                nvtx_kernel,
                stream_dependencies: timeline.dependencies.len(),
                json_events: timeline.json_events,
                parquet_rows: timeline.rows.len(),
                anchor_ns,
                measured: batch.is_some(),
            };
            Ok(Conversion { timeline, summary })
        },
        Err(e) => Err(TraceError::Emit(e)),
    }
}

} // verus!
