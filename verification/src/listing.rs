//! What the table lists of every call, kernel, copy and range.
use crate::contents::{
    launcher, lemma_has, lemma_tells_call, lemma_tells_copy, lemma_tells_kernel, tells_call, tells_copy, tells_kernel,
};
use crate::devices::{direction_text, slug};
use crate::emit::timeline_rows;
use crate::event::RowView;
use crate::labels::device_name;
use crate::laws::lemma_devices_listed;
use crate::model::{pid_of, tid_of};
use crate::order::ordered;
use crate::ranges::{envelope_row, range_args, range_row, range_rows};
use crate::scene::{bound_devices, call_devices, primary, range_devices, Scene};
use crate::seqs::{concat, lemma_concat_has};
use crate::slices::{api_row, call_rows, copy_row, kernel_row};
use crate::spans::tells_range;
use crate::text::decimal;
use vstd::prelude::*;

verus! {

/// The row lists an interval: when it started since the origin and since the anchor and
/// how long it took, and where it was.
pub open spec fn lists_interval(
    s: Scene,
    row: RowView,
    event_type: Seq<char>,
    cat: Seq<char>,
    name: Seq<char>,
    start: i64,
    end: i64,
    pid: Seq<char>,
    tid: Seq<char>,
) -> bool {
    &&& row.report == s.report
    &&& row.event_type == event_type
    &&& row.cat == cat
    &&& row.name == name
    &&& row.ph == "X"@
    &&& row.ts_ns == (start - s.origin_ns) as i64
    &&& row.dur_ns == Some((end - start) as i64)
    &&& row.aligned_ns == (start - s.anchor_ns) as i64
    &&& row.pid == pid
    &&& row.tid == tid
}

/// The row names no activity.
pub open spec fn names_no_activity(row: RowView) -> bool {
    &&& row.event_id is None
    &&& row.launch_event_id is None
    &&& row.stream_id is None
    &&& row.correlation_id is None
    &&& row.stream_sequence is None
}

/// The row has no dependency and no metric.
pub open spec fn measures_nothing(row: RowView) -> bool {
    &&& row.depends_on_event_id is None
    &&& row.dependency_type is None
    &&& row.device_id is None
    &&& row.metric_id is None
    &&& row.metric_value is None
    &&& row.metric_unit is None
}

proof fn lemma_four<T>(a: Seq<T>, b: Seq<T>, c: Seq<T>, d: Seq<T>, i: int)
    ensures
        0 <= i < a.len() ==> i < (a + b + c + d).len() && (a + b + c + d)[i] == a[i],
        0 <= i < b.len() ==> a.len() + i < (a + b + c + d).len() && (a + b + c + d)[a.len() + i] == b[i],
        0 <= i < c.len() ==> a.len() + b.len() + i < (a + b + c + d).len() && (a + b + c + d)[a.len() + b.len() + i]
            == c[i],
        0 <= i < d.len() ==> a.len() + b.len() + c.len() + i < (a + b + c + d).len() && (a + b + c + d)[a.len() + b.len()
            + c.len() + i] == d[i],
{
}

#[verifier::opaque]
spec fn rows_of_calls(s: Scene) -> Seq<RowView> {
    concat(s.runtime.len() as int, |c: int| call_rows(s, c))
}

#[verifier::opaque]
spec fn rows_of_kernels(s: Scene) -> Seq<RowView> {
    Seq::new(s.kernels.len(), |k: int| kernel_row(s, k))
}

#[verifier::opaque]
spec fn rows_of_copies(s: Scene) -> Seq<RowView> {
    Seq::new(s.memcpys.len(), |i: int| copy_row(s, i))
}

#[verifier::opaque]
spec fn rows_of_ranges(s: Scene) -> Seq<RowView> {
    concat(s.nvtx.len() as int, |r: int| range_rows(s, r))
}

proof fn lemma_parts(s: Scene)
    ensures
        timeline_rows(s) == rows_of_calls(s) + rows_of_kernels(s) + rows_of_copies(s) + rows_of_ranges(s),
{
    reveal(rows_of_calls);
    reveal(rows_of_kernels);
    reveal(rows_of_copies);
    reveal(rows_of_ranges);
}

proof fn lemma_row_at(s: Scene, i: int)
    ensures
        ({
            let a = rows_of_calls(s);
            let b = rows_of_kernels(s);
            let c = rows_of_copies(s);
            let d = rows_of_ranges(s);
            let all = timeline_rows(s);
            &&& 0 <= i < a.len() ==> i < all.len() && all[i] == a[i]
            &&& 0 <= i < b.len() ==> a.len() + i < all.len() && all[a.len() + i] == b[i]
            &&& 0 <= i < c.len() ==> a.len() + b.len() + i < all.len() && all[a.len() + b.len() + i] == c[i]
            &&& 0 <= i < d.len() ==> a.len() + b.len() + c.len() + i < all.len() && all[a.len() + b.len() + c.len() + i]
                == d[i]
        }),
{
    lemma_parts(s);
    lemma_four(rows_of_calls(s), rows_of_kernels(s), rows_of_copies(s), rows_of_ranges(s), i);
}

/// A visible call is listed under each of its devices.
pub proof fn lemma_call_is_listed(s: Scene, c: int, device: i64) -> (x: int)
    requires
        0 <= c < s.runtime.len(),
        s.runtime[c].event_id is Some,
        call_devices(s, c).contains(device),
    ensures
        0 <= x < timeline_rows(s).len(),
        lists_interval(
            s,
            timeline_rows(s)[x],
            "cuda_api"@,
            "cuda_api"@,
            s.runtime[c].name@,
            s.runtime[c].start,
            s.runtime[c].end,
            device_name(device, pid_of(s.runtime[c].global_tid)),
            "CUDA API Thread "@ + decimal(tid_of(s.runtime[c].global_tid) as int),
        ),
        tells_call(s, c, device, timeline_rows(s)[x].args),
        timeline_rows(s)[x].event_id == Some(s.runtime[c].event_id->0@),
        timeline_rows(s)[x].launch_event_id is None,
        timeline_rows(s)[x].stream_id is None,
        timeline_rows(s)[x].correlation_id == Some(s.runtime[c].correlation as u32),
        timeline_rows(s)[x].stream_sequence is None,
        measures_nothing(timeline_rows(s)[x]),
{
    let v = ordered(call_devices(s, c));
    assert(v.to_set().contains(device)) by {
        lemma_devices_listed(s);
    }
    let j = choose|j: int| 0 <= j < v.len() && v[j] == device;
    let f = |c: int| call_rows(s, c);
    assert(f(c)[j] == api_row(s, c, device));
    let x = lemma_concat_has(s.runtime.len() as int, f, c, j);
    assert(x < rows_of_calls(s).len() && rows_of_calls(s)[x] == api_row(s, c, device)) by {
        reveal(rows_of_calls);
    }
    lemma_row_at(s, x);
    lemma_tells_call(s, c, device);
    x
}

/// Every kernel is listed.
pub proof fn lemma_kernel_is_listed(s: Scene, k: int) -> (x: int)
    requires
        0 <= k < s.kernels.len(),
    ensures
        0 <= x < timeline_rows(s).len(),
        lists_interval(
            s,
            timeline_rows(s)[x],
            "cuda_kernel"@,
            "cuda"@,
            s.kernels[k].name@,
            s.kernels[k].start,
            s.kernels[k].end,
            device_name(s.kernels[k].device, pid_of(s.kernels[k].global_pid)),
            "Context "@ + decimal(s.kernels[k].context as int) + " / Stream "@ + decimal(s.kernels[k].stream as int),
        ),
        tells_kernel(s, k, timeline_rows(s)[x].args),
        timeline_rows(s)[x].event_id == Some(s.kernels[k].event_id@),
        timeline_rows(s)[x].launch_event_id == launcher(s, s.kernels[k].launch_call),
        timeline_rows(s)[x].stream_id == Some(s.kernels[k].stream as u64),
        timeline_rows(s)[x].correlation_id == Some(s.kernels[k].correlation as u32),
        timeline_rows(s)[x].stream_sequence == Some(s.kernels[k].sequence),
        measures_nothing(timeline_rows(s)[x]),
{
    assert(k < rows_of_kernels(s).len() && rows_of_kernels(s)[k] == kernel_row(s, k)) by {
        reveal(rows_of_kernels);
    }
    lemma_row_at(s, k);
    lemma_tells_kernel(s, k);
    rows_of_calls(s).len() + k
}

/// Every copy is listed.
pub proof fn lemma_copy_is_listed(s: Scene, i: int) -> (x: int)
    requires
        0 <= i < s.memcpys.len(),
    ensures
        0 <= x < timeline_rows(s).len(),
        lists_interval(
            s,
            timeline_rows(s)[x],
            "cuda_memcpy_"@ + slug(direction_text(s.memcpys[i].copy_kind)),
            "cuda_memcpy"@,
            "CUDA Memcpy "@ + direction_text(s.memcpys[i].copy_kind),
            s.memcpys[i].start,
            s.memcpys[i].end,
            device_name(primary(s, i), pid_of(s.memcpys[i].global_pid)),
            "Context "@ + decimal(s.memcpys[i].context as int) + " / Stream "@ + decimal(s.memcpys[i].stream as int),
        ),
        tells_copy(s, i, timeline_rows(s)[x].args),
        timeline_rows(s)[x].event_id == Some(s.memcpys[i].event_id@),
        timeline_rows(s)[x].launch_event_id == launcher(s, s.memcpys[i].launch_call),
        timeline_rows(s)[x].stream_id == Some(s.memcpys[i].stream as u64),
        timeline_rows(s)[x].correlation_id == Some(s.memcpys[i].correlation as u32),
        timeline_rows(s)[x].stream_sequence is None,
        measures_nothing(timeline_rows(s)[x]),
{
    assert(i < rows_of_copies(s).len() && rows_of_copies(s)[i] == copy_row(s, i)) by {
        reveal(rows_of_copies);
    }
    lemma_row_at(s, i);
    lemma_tells_copy(s, i);
    rows_of_calls(s).len() + rows_of_kernels(s).len() + i
}

proof fn lemma_range_row_at(s: Scene, r: int, j: int) -> (x: int)
    requires
        0 <= r < s.nvtx.len(),
        0 <= j < range_rows(s, r).len(),
    ensures
        0 <= x < timeline_rows(s).len(),
        timeline_rows(s)[x] == range_rows(s, r)[j],
{
    let f = |r: int| range_rows(s, r);
    let x = lemma_concat_has(s.nvtx.len() as int, f, r, j);
    assert(x < rows_of_ranges(s).len() && rows_of_ranges(s)[x] == f(r)[j]) by {
        reveal(rows_of_ranges);
    }
    lemma_row_at(s, x);
    rows_of_calls(s).len() + rows_of_kernels(s).len() + rows_of_copies(s).len() + x
}

proof fn lemma_tells(s: Scene, r: int, device: i64)
    ensures
        tells_range(s, r, device, range_args(s, r, device)),
{
    let args = range_args(s, r, device);
    lemma_has(args, 0);
    lemma_has(args, 1);
    lemma_has(args, 2);
}

/// A range is listed under each of its devices.
pub proof fn lemma_range_is_listed(s: Scene, r: int, device: i64) -> (x: int)
    requires
        0 <= r < s.nvtx.len(),
        range_devices(s, r).contains(device),
    ensures
        0 <= x < timeline_rows(s).len(),
        lists_interval(
            s,
            timeline_rows(s)[x],
            "nvtx"@,
            "nvtx"@,
            s.nvtx[r].name@,
            s.nvtx[r].start,
            s.nvtx[r].end,
            device_name(device, s.nvtx[r].pid),
            "NVTX Thread "@ + decimal(s.nvtx[r].tid as int),
        ),
        tells_range(s, r, device, timeline_rows(s)[x].args),
        names_no_activity(timeline_rows(s)[x]),
        measures_nothing(timeline_rows(s)[x]),
{
    let v = ordered(range_devices(s, r));
    assert(v.to_set().contains(device)) by {
        lemma_devices_listed(s);
    }
    let j = choose|j: int| 0 <= j < v.len() && v[j] == device;
    assert(range_rows(s, r)[j] == range_row(s, r, device));
    let x = lemma_range_row_at(s, r, j);
    lemma_tells(s, r, device);
    x
}

/// The kernels launched from inside a range are listed as one envelope on each of their
/// devices.
pub proof fn lemma_envelope_is_listed(s: Scene, r: int, device: i64) -> (x: int)
    requires
        0 <= r < s.nvtx.len(),
        s.nvtx[r].kernel_bounds@.contains_key(device),
    ensures
        0 <= x < timeline_rows(s).len(),
        lists_interval(
            s,
            timeline_rows(s)[x],
            "nvtx_kernel"@,
            "nvtx-kernel"@,
            s.nvtx[r].name@,
            s.nvtx[r].kernel_bounds@[device].0,
            s.nvtx[r].kernel_bounds@[device].1,
            device_name(device, s.nvtx[r].pid),
            "NVTX Kernel Thread "@ + decimal(s.nvtx[r].tid as int),
        ),
        tells_range(s, r, device, timeline_rows(s)[x].args),
        names_no_activity(timeline_rows(s)[x]),
        measures_nothing(timeline_rows(s)[x]),
{
    let n = ordered(range_devices(s, r)).len() as int;
    let v = ordered(bound_devices(s, r));
    assert(bound_devices(s, r).contains(device));
    assert(v.to_set().contains(device)) by {
        lemma_devices_listed(s);
    }
    let j = choose|j: int| 0 <= j < v.len() && v[j] == device;
    assert(range_rows(s, r)[n + j] == envelope_row(s, r, device));
    let x = lemma_range_row_at(s, r, n + j);
    lemma_tells(s, r, device);
    x
}

} // verus!
