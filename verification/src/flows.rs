//! What holds of the slices and arrows of every timeline.
use crate::devices::{direction_text, is_device_to_device, slug};
use crate::emit::timeline_events;
use crate::event::{arg, arrow, ArgView, EventView, Spot, ValueView};
use crate::flow_ids::{flow_number, lemma_namespace_bounds, namespace, FLOWS_PER_NAMESPACE};
use crate::model::{pid_of, CORE_LAUNCH_FLOW_ID_BASE, LAUNCH_FLOW_ID_BASE, MEMCPY_FLOW_ID_BASE, PCIE_USAGE_FLOW_ID_BASE};
use crate::naming::{
    call_lanes, copy_track_naming, copy_track_section, core_lanes, core_naming, core_section, lane_section,
    metadata_events, nvtx_lanes, process_naming, process_section, projected_lanes, stream_lanes, stream_naming,
    stream_section, thread_naming, ThreadTrack,
};
use crate::order::ordered;
use crate::ranges::range_events;
use crate::scene::{
    copy_stream_tid, copy_track_keys, core_tid, gpu_keys, gpu_process, kernel_stream_tid, primary, shown, Scene,
};
use crate::seqs::{
    concat, lemma_concat_all, lemma_concat_entry, lemma_concat_same, lemma_picked_add, lemma_picked_concat,
    lemma_picked_none, lemma_picked_one, picked,
};
use crate::slices::{
    arrival_spot, call_events, copy_arrow, copy_arrows, copy_events, copy_flow_args, copy_slices, core_slice,
    kernel_events, kernel_process, launch_args, launch_arrows, launch_spot, pcie_arrow, pcie_arrows, pcie_before,
    stream_slice, usage_tid,
};
use crate::tracks::Lane;
use vstd::prelude::*;

verus! {

/// A metadata event.
spec fn is_meta(e: EventView) -> bool {
    e.ph == "M"@ && e.cat == "__metadata"@ && e.id is None
}

proof fn lemma_lane_section_meta(s: Scene, kind: ThreadTrack, lanes: Seq<Lane<(i64, i64, i64)>>)
    ensures
        forall|i: int|
            0 <= i < lane_section(s, kind, lanes).len() ==> is_meta(#[trigger] lane_section(s, kind, lanes)[i]),
{
    lemma_concat_all(lanes.len() as int, |i: int| thread_naming(s, kind, lanes[i]), |e: EventView| is_meta(e));
}

proof fn lemma_metadata_is_meta(s: Scene)
    ensures
        forall|i: int| 0 <= i < metadata_events(s).len() ==> is_meta(#[trigger] metadata_events(s)[i]),
{
    let q = |e: EventView| is_meta(e);
    let processes = ordered(gpu_keys(s));
    lemma_concat_all(processes.len() as int, |i: int| process_naming(s, processes[i]), q);
    let streams = stream_lanes(s);
    lemma_concat_all(streams.len() as int, |i: int| stream_naming(s, streams[i]), q);
    let cores = core_lanes(s);
    lemma_concat_all(cores.len() as int, |i: int| core_naming(s, cores[i]), q);
    let copies = ordered(copy_track_keys(s));
    lemma_concat_all(copies.len() as int, |i: int| copy_track_naming(s, copies[i]), q);
    lemma_lane_section_meta(s, ThreadTrack::Projected, projected_lanes(s));
    lemma_lane_section_meta(s, ThreadTrack::Runtime, call_lanes(s));
    lemma_lane_section_meta(s, ThreadTrack::Nvtx, nvtx_lanes(s));
    let a = process_section(s);
    let b = a + stream_section(s);
    let c = b + core_section(s);
    let d = c + copy_track_section(s);
    let e = d + lane_section(s, ThreadTrack::Projected, projected_lanes(s));
    let f = e + lane_section(s, ThreadTrack::Runtime, call_lanes(s));
    let g = f + lane_section(s, ThreadTrack::Nvtx, nvtx_lanes(s));
    assert(g == metadata_events(s));
    assert forall|i: int| 0 <= i < a.len() implies is_meta(#[trigger] a[i]) by {
        assert(q(a[i]));
    }
    assert forall|i: int| 0 <= i < b.len() implies is_meta(#[trigger] b[i]) by {
        if i >= a.len() {
            assert(q(stream_section(s)[i - a.len()]));
        }
    }
    assert forall|i: int| 0 <= i < c.len() implies is_meta(#[trigger] c[i]) by {
        if i < b.len() {
            assert(is_meta(b[i]));
        } else {
            assert(q(core_section(s)[i - b.len()]));
        }
    }
    assert forall|i: int| 0 <= i < d.len() implies is_meta(#[trigger] d[i]) by {
        if i < c.len() {
            assert(is_meta(c[i]));
        } else {
            assert(q(copy_track_section(s)[i - c.len()]));
        }
    }
    assert forall|i: int| 0 <= i < e.len() implies is_meta(#[trigger] e[i]) by {
        if i < d.len() {
            assert(is_meta(d[i]));
        } else {
            assert(is_meta(lane_section(s, ThreadTrack::Projected, projected_lanes(s))[i - d.len()]));
        }
    }
    assert forall|i: int| 0 <= i < f.len() implies is_meta(#[trigger] f[i]) by {
        if i < e.len() {
            assert(is_meta(e[i]));
        } else {
            assert(is_meta(lane_section(s, ThreadTrack::Runtime, call_lanes(s))[i - e.len()]));
        }
    }
    assert forall|i: int| 0 <= i < g.len() implies is_meta(#[trigger] g[i]) by {
        if i < f.len() {
            assert(is_meta(f[i]));
        } else {
            assert(is_meta(lane_section(s, ThreadTrack::Nvtx, nvtx_lanes(s))[i - f.len()]));
        }
    }
}

/// The metadata events are of the metadata phase.
pub proof fn lemma_metadata_phase(s: Scene)
    ensures
        forall|i: int| 0 <= i < metadata_events(s).len() ==> (#[trigger] metadata_events(s)[i]).ph == "M"@,
{
    lemma_metadata_is_meta(s);
    assert forall|i: int| 0 <= i < metadata_events(s).len() implies (#[trigger] metadata_events(s)[i]).ph == "M"@ by {
        assert(is_meta(metadata_events(s)[i]));
    }
}

/// A begin or end event.
spec fn is_mark(e: EventView) -> bool {
    (e.ph == "B"@ || e.ph == "E"@) && (e.cat == "nvtx"@ || e.cat == "nvtx-kernel"@) && e.id is None
}

/// The slice of a call.
spec fn is_call(e: EventView) -> bool {
    e.ph == "X"@ && e.cat == "cuda_api"@ && e.id is None
}

proof fn lemma_calls_are_calls(s: Scene, calls: Seq<EventView>)
    requires
        calls == concat(s.runtime.len() as int, |c: int| call_events(s, c)),
    ensures
        forall|i: int| 0 <= i < calls.len() ==> is_call(#[trigger] calls[i]),
{
    let q = |e: EventView| is_call(e);
    lemma_concat_all(s.runtime.len() as int, |c: int| call_events(s, c), q);
    assert forall|i: int| 0 <= i < calls.len() implies is_call(#[trigger] calls[i]) by {
        assert(q(calls[i]));
    }
}

/// What of a timeline's events satisfies `p`, when only kernels and copies can.
proof fn lemma_picked_timeline(s: Scene, p: spec_fn(EventView) -> bool)
    requires
        forall|e: EventView| #[trigger] is_meta(e) ==> !p(e),
        forall|e: EventView| #[trigger] is_call(e) ==> !p(e),
        forall|e: EventView| #[trigger] is_mark(e) ==> !p(e),
    ensures
        picked(timeline_events(s), p) == concat(s.kernels.len() as int, |k: int| picked(kernel_events(s, k), p))
            + concat(s.memcpys.len() as int, |i: int| picked(copy_events(s, i), p)),
{
    let calls = concat(s.runtime.len() as int, |c: int| call_events(s, c));
    let f = |k: int| kernel_events(s, k);
    let g = |i: int| copy_events(s, i);
    let pf = |k: int| picked(kernel_events(s, k), p);
    let pg = |i: int| picked(copy_events(s, i), p);
    let kernels = concat(s.kernels.len() as int, f);
    let copies = concat(s.memcpys.len() as int, g);
    let marks = range_events(s);
    lemma_metadata_is_meta(s);
    lemma_calls_are_calls(s, calls);
    lemma_picked_none(metadata_events(s), p);
    lemma_picked_none(calls, p);
    assert forall|i: int| 0 <= i < marks.len() implies !p(#[trigger] marks[i]) by {
        assert(is_mark(marks[i]));
    }
    lemma_picked_none(marks, p);
    lemma_picked_add(metadata_events(s), calls, p);
    lemma_picked_add(metadata_events(s) + calls, kernels, p);
    lemma_picked_add(metadata_events(s) + calls + kernels, copies, p);
    lemma_picked_add(metadata_events(s) + calls + kernels + copies, marks, p);
    lemma_picked_concat(s.kernels.len() as int, f, pf, p);
    lemma_picked_concat(s.memcpys.len() as int, g, pg, p);
    assert(picked(timeline_events(s), p) =~= concat(s.kernels.len() as int, pf) + concat(s.memcpys.len() as int, pg));
}

/// A slice on a core timeline.
pub open spec fn is_core_slice(e: EventView) -> bool {
    e.cat == "cuda_kernel_usage"@
}

proof fn lemma_picked_arrow(
    name: Seq<char>,
    cat: Seq<char>,
    from: Spot,
    to: Spot,
    args: Seq<ArgView>,
    id: u64,
    p: spec_fn(EventView) -> bool,
)
    ensures
        ({
            let a = arrow(name, cat, from, to, args, id);
            picked(a, p) == (if p(a[0]) {
                seq![a[0]]
            } else {
                Seq::empty()
            }) + (if p(a[1]) {
                seq![a[1]]
            } else {
                Seq::empty()
            })
        }),
{
    let a = arrow(name, cat, from, to, args, id);
    assert(a =~= seq![a[0]] + seq![a[1]]);
    lemma_picked_add(seq![a[0]], seq![a[1]], p);
    lemma_picked_one(a[0], p);
    lemma_picked_one(a[1], p);
}

proof fn lemma_core_cat()
    ensures
        "cuda_kernel_usage"@ != "__metadata"@,
        "cuda_kernel_usage"@ != "cuda_api"@,
        "cuda_kernel_usage"@ != "cuda"@,
        "cuda_kernel_usage"@ != "nvtx"@,
        "cuda_kernel_usage"@ != "nvtx-kernel"@,
        "cuda_kernel_usage"@ != "cuda_launch_dependency"@,
        "cuda_kernel_usage"@ != "cuda_core_launch_dependency"@,
        "cuda_kernel_usage"@ != "cuda_memcpy"@,
        "cuda_kernel_usage"@ != "cuda_copy_usage"@,
        "cuda_kernel_usage"@ != "cuda_memcpy_dependency"@,
        "cuda_kernel_usage"@ != "pcie_usage_dependency"@,
{
    reveal_strlit("cuda_kernel_usage");
    reveal_strlit("__metadata");
    reveal_strlit("cuda_api");
    reveal_strlit("cuda");
    reveal_strlit("nvtx");
    reveal_strlit("nvtx-kernel");
    reveal_strlit("cuda_launch_dependency");
    reveal_strlit("cuda_core_launch_dependency");
    reveal_strlit("cuda_memcpy");
    reveal_strlit("cuda_copy_usage");
    reveal_strlit("cuda_memcpy_dependency");
    reveal_strlit("pcie_usage_dependency");
    assert("cuda_kernel_usage"@.len() == 17);
}

proof fn lemma_core_of_kernel(s: Scene, k: int)
    ensures
        picked(kernel_events(s, k), |e: EventView| is_core_slice(e)) == seq![core_slice(s, k)],
{
    let p = |e: EventView| is_core_slice(e);
    lemma_core_cat();
    let slices = seq![stream_slice(s, k), core_slice(s, k)];
    assert(slices =~= seq![stream_slice(s, k)] + seq![core_slice(s, k)]);
    lemma_picked_add(seq![stream_slice(s, k)], seq![core_slice(s, k)], p);
    lemma_picked_one(stream_slice(s, k), p);
    lemma_picked_one(core_slice(s, k), p);
    let arrows = match s.kernels[k].launch_call {
        Some(c) => launch_arrows(s, k, c as int),
        None => Seq::empty(),
    };
    assert forall|i: int| 0 <= i < arrows.len() implies !p(#[trigger] arrows[i]) by {
        assert(i == 0 || i == 1 || i == 2 || i == 3);
    }
    lemma_picked_none(arrows, p);
    lemma_picked_add(slices, arrows, p);
    assert(picked(kernel_events(s, k), p) =~= seq![core_slice(s, k)]);
}

proof fn lemma_core_of_copy(s: Scene, i: int)
    ensures
        picked(copy_events(s, i), |e: EventView| is_core_slice(e)) == Seq::<EventView>::empty(),
{
    lemma_core_cat();
    lemma_copy_cats(s, i);
    lemma_picked_none(copy_events(s, i), |e: EventView| is_core_slice(e));
}

/// Every kernel is shown exactly once on a core timeline, in order, and nothing else
/// is: no copy ever appears there.
pub proof fn lemma_core_timeline_shows_every_kernel_once(s: Scene)
    ensures
        picked(timeline_events(s), |e: EventView| is_core_slice(e)) == Seq::new(
            s.kernels.len(),
            |k: int| core_slice(s, k),
        ),
{
    let p = |e: EventView| is_core_slice(e);
    let n = s.kernels.len() as int;
    let m = s.memcpys.len() as int;
    let pf = |k: int| picked(kernel_events(s, k), p);
    let pg = |i: int| picked(copy_events(s, i), p);
    let slices = |k: int| core_slice(s, k);
    let one = |k: int| seq![slices(k)];
    let none = |i: int| Seq::<EventView>::empty();
    assert(picked(timeline_events(s), p) == concat(n, pf) + concat(m, pg)) by {
        lemma_core_cat();
        lemma_picked_timeline(s, p);
    }
    assert(concat(n, pf) == Seq::new(s.kernels.len(), slices)) by {
        assert forall|k: int| 0 <= k < n implies #[trigger] pf(k) == one(k) by {
            lemma_core_of_kernel(s, k);
        }
        lemma_concat_same(n, pf, one);
        lemma_concat_ones(n, slices);
    }
    assert(concat(m, pg) == Seq::<EventView>::empty()) by {
        assert forall|i: int| 0 <= i < m implies #[trigger] pg(i) == none(i) by {
            lemma_core_of_copy(s, i);
        }
        lemma_concat_same(m, pg, none);
        lemma_concat_none::<EventView>(m);
    }
    assert(Seq::new(s.kernels.len(), slices) + Seq::<EventView>::empty() =~= Seq::new(s.kernels.len(), slices));
}

proof fn lemma_concat_ones<T>(n: int, f: spec_fn(int) -> T)
    requires
        0 <= n,
    ensures
        concat(n, |i: int| seq![f(i)]) == Seq::new(n as nat, f),
    decreases n,
{
    if n > 0 {
        lemma_concat_ones(n - 1, f);
    }
    assert(concat(n, |i: int| seq![f(i)]) =~= Seq::new(n as nat, f));
}

proof fn lemma_concat_none<T>(n: int)
    ensures
        concat(n, |i: int| Seq::<T>::empty()) == Seq::<T>::empty(),
    decreases n,
{
    if n > 0 {
        lemma_concat_none::<T>(n - 1);
        assert(concat(n, |i: int| Seq::<T>::empty()) =~= Seq::<T>::empty());
    }
}

proof fn lemma_copy_cats(s: Scene, i: int)
    ensures
        forall|j: int|
            0 <= j < copy_events(s, i).len() ==> {
                let e = #[trigger] copy_events(s, i)[j];
                ||| e.cat == "cuda_memcpy"@
                ||| e.cat == "cuda_copy_usage"@
                ||| e.cat == "cuda_memcpy_dependency"@
                ||| e.cat == "pcie_usage_dependency"@
            },
{
    let q = |e: EventView|
        e.cat == "cuda_memcpy"@ || e.cat == "cuda_copy_usage"@ || e.cat == "cuda_memcpy_dependency"@ || e.cat
            == "pcie_usage_dependency"@;
    let slices = copy_slices(s, i);
    let arrows = copy_arrows(s, i);
    assert forall|j: int| 0 <= j < slices.len() implies q(#[trigger] slices[j]) by {}
    assert forall|j: int| 0 <= j < arrows.len() implies q(#[trigger] arrows[j]) by {
        let c = s.memcpys[i].launch_call->0 as int;
        let first = copy_arrow(s, i, c);
        let g = |j: int| pcie_arrow(s, i, c, j);
        if j >= 2 {
            let place = lemma_concat_entry(pcie_arrows(s, i) as int, g, j - 2);
            assert(place.1 == 0 || place.1 == 1);
        }
    }
    assert forall|j: int| 0 <= j < copy_events(s, i).len() implies q(#[trigger] copy_events(s, i)[j]) by {
        if j < slices.len() {
            assert(q(slices[j]));
        } else {
            assert(q(arrows[j - slices.len()]));
        }
    }
}

/// The identifiers of the arrows to a kernel.
pub open spec fn kernel_arrow_ids(s: Scene, k: int) -> Seq<u64> {
    if s.kernels[k].launch_call is Some {
        seq![flow_number(s.report, LAUNCH_FLOW_ID_BASE, k), flow_number(s.report, CORE_LAUNCH_FLOW_ID_BASE, k)]
    } else {
        Seq::empty()
    }
}

/// The identifiers of the arrows to a copy.
pub open spec fn copy_arrow_ids(s: Scene, i: int) -> Seq<u64> {
    if s.memcpys[i].launch_call is Some {
        seq![flow_number(s.report, MEMCPY_FLOW_ID_BASE, i)] + Seq::new(
            pcie_arrows(s, i),
            |j: int| flow_number(s.report, PCIE_USAGE_FLOW_ID_BASE, pcie_before(s, i) + j),
        )
    } else {
        Seq::empty()
    }
}

/// The identifiers of all arrows: for every launched kernel one to its stream and one
/// to its core timeline, for every launched copy one to its stream and, if it
/// crosses PCIe, one to the PCIe track of each of its devices.
pub open spec fn arrow_ids(s: Scene) -> Seq<u64> {
    concat(s.kernels.len() as int, |k: int| kernel_arrow_ids(s, k)) + concat(
        s.memcpys.len() as int,
        |i: int| copy_arrow_ids(s, i),
    )
}

/// The identifiers of a list of events.
pub open spec fn ids_of(events: Seq<EventView>) -> Seq<Option<u64>> {
    Seq::new(events.len(), |i: int| events[i].id)
}

pub open spec fn somes(ids: Seq<u64>) -> Seq<Option<u64>> {
    Seq::new(ids.len(), |i: int| Some(ids[i]))
}

/// An event of a phase.
pub open spec fn in_phase(e: EventView, ph: Seq<char>) -> bool {
    e.ph == ph
}

proof fn lemma_phases()
    ensures
        "s"@ != "f"@,
        "s"@ != "M"@,
        "s"@ != "X"@,
        "s"@ != "B"@,
        "s"@ != "E"@,
        "f"@ != "M"@,
        "f"@ != "X"@,
        "f"@ != "B"@,
        "f"@ != "E"@,
{
    reveal_strlit("s");
    reveal_strlit("f");
    reveal_strlit("M");
    reveal_strlit("X");
    reveal_strlit("B");
    reveal_strlit("E");
    assert("s"@[0] == 's');
    assert("f"@[0] == 'f');
    assert("M"@[0] == 'M');
    assert("X"@[0] == 'X');
    assert("B"@[0] == 'B');
    assert("E"@[0] == 'E');
}

/// One end of an arrow.
proof fn lemma_arrow_end(
    name: Seq<char>,
    cat: Seq<char>,
    from: Spot,
    to: Spot,
    args: Seq<ArgView>,
    id: u64,
    ph: Seq<char>,
)
    requires
        ph == "s"@ || ph == "f"@,
    ensures
        ({
            let a = arrow(name, cat, from, to, args, id);
            picked(a, |e: EventView| in_phase(e, ph)) == seq![if ph == "s"@ {
                a[0]
            } else {
                a[1]
            }]
        }),
{
    let p = |e: EventView| in_phase(e, ph);
    let a = arrow(name, cat, from, to, args, id);
    lemma_phases();
    lemma_picked_arrow(name, cat, from, to, args, id, p);
    if ph == "s"@ {
        assert(picked(a, p) =~= seq![a[0]]);
    } else {
        assert(picked(a, p) =~= seq![a[1]]);
    }
}

proof fn lemma_ids_add(a: Seq<EventView>, b: Seq<EventView>)
    ensures
        ids_of(a + b) == ids_of(a) + ids_of(b),
{
    assert(ids_of(a + b) =~= ids_of(a) + ids_of(b));
}

proof fn lemma_ids_concat(n: int, f: spec_fn(int) -> Seq<EventView>, g: spec_fn(int) -> Seq<u64>)
    requires
        forall|i: int| 0 <= i < n ==> ids_of(#[trigger] f(i)) == somes(g(i)),
    ensures
        ids_of(concat(n, f)) == somes(concat(n, g)),
    decreases n,
{
    if n > 0 {
        lemma_ids_concat(n - 1, f, g);
        lemma_ids_add(concat(n - 1, f), f(n - 1));
        assert(ids_of(f(n - 1)) == somes(g(n - 1)));
        assert(somes(concat(n, g)) =~= somes(concat(n - 1, g)) + somes(g(n - 1)));
    } else {
        assert(ids_of(concat(n, f)) =~= somes(concat(n, g)));
    }
}

proof fn lemma_kernel_ends(s: Scene, k: int, ph: Seq<char>)
    requires
        ph == "s"@ || ph == "f"@,
    ensures
        ids_of(picked(kernel_events(s, k), |e: EventView| in_phase(e, ph))) == somes(kernel_arrow_ids(s, k)),
{
    let p = |e: EventView| in_phase(e, ph);
    lemma_phases();
    let slices = seq![stream_slice(s, k), core_slice(s, k)];
    assert forall|i: int| 0 <= i < slices.len() implies !p(#[trigger] slices[i]) by {
        assert(i == 0 || i == 1);
    }
    lemma_picked_none(slices, p);
    match s.kernels[k].launch_call {
        Some(c) => {
            let c = c as int;
            let kernel = s.kernels[k];
            let from = launch_spot(s, c, kernel.device, kernel.start, kernel_process(s, k));
            let to = arrival_spot(s, kernel.start, kernel.end, kernel_stream_tid(s, k), kernel_process(s, k));
            let core = arrival_spot(s, kernel.start, kernel.end, core_tid(s, k), kernel_process(s, k));
            let args = launch_args(kernel, s.runtime[c]);
            let more = args.push(arg("targetTrack"@, ValueView::Text("CUDA Core Timeline"@)));
            let x = flow_number(s.report, LAUNCH_FLOW_ID_BASE, k);
            let y = flow_number(s.report, CORE_LAUNCH_FLOW_ID_BASE, k);
            let a = arrow("cuda_kernel_launch"@, "cuda_launch_dependency"@, from, to, args, x);
            let b = arrow("cuda_core_kernel_launch"@, "cuda_core_launch_dependency"@, from, core, more, y);
            lemma_arrow_end("cuda_kernel_launch"@, "cuda_launch_dependency"@, from, to, args, x, ph);
            lemma_arrow_end("cuda_core_kernel_launch"@, "cuda_core_launch_dependency"@, from, core, more, y, ph);
            assert(launch_arrows(s, k, c) == a + b);
            lemma_picked_add(a, b, p);
            lemma_picked_add(slices, a + b, p);
            assert(ids_of(picked(kernel_events(s, k), p)) =~= somes(kernel_arrow_ids(s, k)));
        },
        None => {
            assert(kernel_events(s, k) =~= slices);
            assert(ids_of(picked(kernel_events(s, k), p)) =~= somes(kernel_arrow_ids(s, k)));
        },
    }
}

/// The end of a PCIe arrow.
spec fn pcie_end(s: Scene, i: int, c: int, j: int, ph: Seq<char>) -> EventView {
    if ph == "s"@ {
        pcie_arrow(s, i, c, j)[0]
    } else {
        pcie_arrow(s, i, c, j)[1]
    }
}

proof fn lemma_pcie_ends(s: Scene, i: int, c: int, ph: Seq<char>)
    requires
        ph == "s"@ || ph == "f"@,
    ensures
        picked(
            concat(pcie_arrows(s, i) as int, |j: int| pcie_arrow(s, i, c, j)),
            |e: EventView| in_phase(e, ph),
        ) == Seq::new(pcie_arrows(s, i), |j: int| pcie_end(s, i, c, j, ph)),
{
    let p = |e: EventView| in_phase(e, ph);
    let n = pcie_arrows(s, i) as int;
    let f = |j: int| pcie_arrow(s, i, c, j);
    let ends = |j: int| pcie_end(s, i, c, j, ph);
    let one = |j: int| seq![ends(j)];
    assert forall|j: int| 0 <= j < n implies #[trigger] one(j) == picked(f(j), p) by {
        let copy = s.memcpys[i];
        let device = ordered(shown(s, i))[j];
        let pid = gpu_process(s, pid_of(copy.global_pid), device);
        lemma_arrow_end(
            "pcie_usage_"@ + slug(direction_text(copy.copy_kind)),
            "pcie_usage_dependency"@,
            launch_spot(s, c, device, copy.start, pid),
            arrival_spot(s, copy.start, copy.end, usage_tid(s, i, device), pid),
            copy_flow_args(s, i, c, device).push(arg("targetTrack"@, ValueView::Text("PCIe Usage"@))),
            flow_number(s.report, PCIE_USAGE_FLOW_ID_BASE, pcie_before(s, i) + j),
            ph,
        );
    }
    lemma_picked_concat(n, f, one, p);
    lemma_concat_ones(n, ends);
}

proof fn lemma_copy_ends(s: Scene, i: int, ph: Seq<char>)
    requires
        ph == "s"@ || ph == "f"@,
    ensures
        ids_of(picked(copy_events(s, i), |e: EventView| in_phase(e, ph))) == somes(copy_arrow_ids(s, i)),
{
    let p = |e: EventView| in_phase(e, ph);
    lemma_phases();
    let slices = copy_slices(s, i);
    assert forall|j: int| 0 <= j < slices.len() implies !p(#[trigger] slices[j]) by {
        assert(slices[j].ph == "X"@);
    }
    lemma_picked_none(slices, p);
    lemma_picked_add(slices, copy_arrows(s, i), p);
    match s.memcpys[i].launch_call {
        Some(c) => {
            let c = c as int;
            let copy = s.memcpys[i];
            let pid = gpu_process(s, pid_of(copy.global_pid), primary(s, i));
            let first = copy_arrow(s, i, c);
            let rest = concat(pcie_arrows(s, i) as int, |j: int| pcie_arrow(s, i, c, j));
            lemma_arrow_end(
                "cuda_memcpy_"@ + slug(direction_text(copy.copy_kind)),
                "cuda_memcpy_dependency"@,
                launch_spot(s, c, primary(s, i), copy.start, pid),
                arrival_spot(s, copy.start, copy.end, copy_stream_tid(s, i), pid),
                copy_flow_args(s, i, c, primary(s, i)),
                flow_number(s.report, MEMCPY_FLOW_ID_BASE, i),
                ph,
            );
            lemma_pcie_ends(s, i, c, ph);
            lemma_picked_add(first, rest, p);
            assert(ids_of(picked(copy_events(s, i), p)) =~= somes(copy_arrow_ids(s, i)));
        },
        None => {
            assert(copy_events(s, i) =~= slices);
            assert(ids_of(picked(copy_events(s, i), p)) =~= somes(copy_arrow_ids(s, i)));
        },
    }
}

proof fn lemma_ends(s: Scene, ph: Seq<char>)
    requires
        ph == "s"@ || ph == "f"@,
    ensures
        ids_of(picked(timeline_events(s), |e: EventView| in_phase(e, ph))) == somes(arrow_ids(s)),
{
    let p = |e: EventView| in_phase(e, ph);
    let n = s.kernels.len() as int;
    let m = s.memcpys.len() as int;
    let pf = |k: int| picked(kernel_events(s, k), p);
    let pg = |i: int| picked(copy_events(s, i), p);
    let f = |k: int| kernel_arrow_ids(s, k);
    let g = |i: int| copy_arrow_ids(s, i);
    assert(picked(timeline_events(s), p) == concat(n, pf) + concat(m, pg)) by {
        lemma_phases();
        lemma_picked_timeline(s, p);
    }
    assert(ids_of(concat(n, pf)) == somes(concat(n, f))) by {
        assert forall|k: int| 0 <= k < n implies ids_of(#[trigger] pf(k)) == somes(f(k)) by {
            lemma_kernel_ends(s, k, ph);
        }
        lemma_ids_concat(n, pf, f);
    }
    assert(ids_of(concat(m, pg)) == somes(concat(m, g))) by {
        assert forall|i: int| 0 <= i < m implies ids_of(#[trigger] pg(i)) == somes(g(i)) by {
            lemma_copy_ends(s, i, ph);
        }
        lemma_ids_concat(m, pg, g);
    }
    lemma_ids_add(concat(n, pf), concat(m, pg));
    assert(somes(concat(n, f) + concat(m, g)) =~= somes(concat(n, f)) + somes(concat(m, g)));
}

/// The events of a timeline at which arrows start.
#[verifier::opaque]
pub open spec fn flow_starts(s: Scene) -> Seq<EventView> {
    picked(timeline_events(s), |e: EventView| in_phase(e, "s"@))
}

/// The arrows of a timeline are complete: the starts and the finishes of arrows carry
/// the same identifiers in the same order.
pub proof fn lemma_arrows_are_paired(s: Scene)
    ensures
        ids_of(picked(timeline_events(s), |e: EventView| in_phase(e, "s"@))) == somes(arrow_ids(s)),
        ids_of(picked(timeline_events(s), |e: EventView| in_phase(e, "f"@))) == somes(arrow_ids(s)),
{
    lemma_ends(s, "s"@);
    lemma_ends(s, "f"@);
}

proof fn lemma_pcie_grows(s: Scene, i: int, n: int)
    requires
        0 <= i <= n,
    ensures
        pcie_before(s, i) <= pcie_before(s, n),
    decreases n,
{
    if i < n {
        lemma_pcie_grows(s, i, n - 1);
    }
}

/// The series of arrows keep within the identifiers.
pub open spec fn arrows_countable(s: Scene) -> bool {
    arrows_below(s, 0x1000_0000_0000_0000)
}

/// The series of arrows keep within the namespace of their report.
pub open spec fn arrows_fit_namespace(s: Scene) -> bool {
    arrows_below(s, 0x1000_0000)
}

pub open spec fn arrows_below(s: Scene, limit: int) -> bool {
    &&& s.kernels.len() <= limit
    &&& s.memcpys.len() <= limit
    &&& pcie_before(s, s.memcpys.len() as int) <= limit
}

/// The identifiers of a timeline are in the namespace of its report.
proof fn lemma_id_in_namespace(s: Scene, a: int)
    requires
        arrows_fit_namespace(s),
        0 <= a < arrow_ids(s).len(),
    ensures
        namespace(s.report) * FLOWS_PER_NAMESPACE <= arrow_ids(s)[a] < (namespace(s.report) + 1) * FLOWS_PER_NAMESPACE,
{
    let n = s.kernels.len() as int;
    let m = s.memcpys.len() as int;
    let f = |k: int| kernel_arrow_ids(s, k);
    let g = |i: int| copy_arrow_ids(s, i);
    let first = concat(n, f);
    lemma_namespace_bounds(s.report);
    if a < first.len() {
        let x = lemma_concat_entry(n, f, a);
        assert(x.1 == 0 || x.1 == 1);
    } else {
        let x = lemma_concat_entry(m, g, a - first.len());
        lemma_pcie_grows(s, x.0 + 1, m);
    }
}

/// Reports are kept apart: where their namespaces differ, no arrow of one shares its
/// identifier with an arrow of the other.
pub proof fn lemma_reports_share_no_arrow_ids(a: Scene, b: Scene)
    requires
        namespace(a.report) != namespace(b.report),
        arrows_fit_namespace(a),
        arrows_fit_namespace(b),
    ensures
        forall|i: int, j: int|
            0 <= i < arrow_ids(a).len() && 0 <= j < arrow_ids(b).len() ==> #[trigger] arrow_ids(a)[i]
                != #[trigger] arrow_ids(b)[j],
{
    assert forall|i: int, j: int| 0 <= i < arrow_ids(a).len() && 0 <= j < arrow_ids(b).len() implies #[trigger] arrow_ids(
        a,
    )[i] != #[trigger] arrow_ids(b)[j] by {
        lemma_id_in_namespace(a, i);
        lemma_id_in_namespace(b, j);
        lemma_apart(namespace(a.report), namespace(b.report), arrow_ids(a)[i] as int, arrow_ids(b)[j] as int);
    }
}

proof fn lemma_apart(m: int, n: int, x: int, y: int)
    requires
        m != n,
        m * FLOWS_PER_NAMESPACE <= x < (m + 1) * FLOWS_PER_NAMESPACE,
        n * FLOWS_PER_NAMESPACE <= y < (n + 1) * FLOWS_PER_NAMESPACE,
    ensures
        x != y,
{
}

/// The merged timelines of reports with different namespaces have no duplicate flow
/// start.
pub proof fn lemma_merged_flow_starts_differ(a: Scene, b: Scene, i: int, j: int)
    requires
        namespace(a.report) != namespace(b.report),
        arrows_fit_namespace(a),
        arrows_fit_namespace(b),
        0 <= i < flow_starts(a).len(),
        0 <= j < flow_starts(b).len(),
    ensures
        flow_starts(a)[i].id is Some,
        flow_starts(a)[i].id != flow_starts(b)[j].id,
{
    lemma_start_id(a, i);
    lemma_start_id(b, j);
    assert(arrow_ids(a)[i] != arrow_ids(b)[j]) by {
        lemma_id_in_namespace(a, i);
        lemma_id_in_namespace(b, j);
        lemma_apart(namespace(a.report), namespace(b.report), arrow_ids(a)[i] as int, arrow_ids(b)[j] as int);
    }
}

proof fn lemma_start_id(s: Scene, i: int)
    requires
        0 <= i < flow_starts(s).len(),
    ensures
        i < arrow_ids(s).len(),
        flow_starts(s)[i].id == Some(arrow_ids(s)[i]),
{
    let starts = flow_starts(s);
    let ids = arrow_ids(s);
    assert(ids_of(starts) == somes(ids)) by {
        reveal(flow_starts);
        lemma_arrows_are_paired(s);
    }
    lemma_id_at(starts, ids, i);
}

proof fn lemma_id_at(events: Seq<EventView>, ids: Seq<u64>, i: int)
    requires
        ids_of(events) == somes(ids),
        0 <= i < events.len(),
    ensures
        i < ids.len(),
        events[i].id == Some(ids[i]),
{
    let x = ids_of(events);
    let y = somes(ids);
    assert(x.len() == events.len());
    assert(y.len() == ids.len());
    assert(x[i] == y[i]);
    assert(x[i] == events[i].id);
    assert(y[i] == Some(ids[i]));
}

/// No two arrows of a timeline share an identifier.
pub proof fn lemma_arrow_ids_are_distinct(s: Scene)
    requires
        arrows_countable(s),
    ensures
        arrow_ids(s).no_duplicates(),
{
    let n = s.kernels.len() as int;
    let m = s.memcpys.len() as int;
    let f = |k: int| kernel_arrow_ids(s, k);
    let g = |i: int| copy_arrow_ids(s, i);
    let first = concat(n, f);
    let second = concat(m, g);
    let ids = arrow_ids(s);
    lemma_namespace_bounds(s.report);
    assert forall|a: int, b: int| 0 <= a < b < ids.len() implies ids[a] != ids[b] by {
        if b < first.len() {
            let x = lemma_concat_entry(n, f, a);
            let y = lemma_concat_entry(n, f, b);
            assert(x.1 == 0 || x.1 == 1);
            assert(y.1 == 0 || y.1 == 1);
        } else if a < first.len() {
            let x = lemma_concat_entry(n, f, a);
            let y = lemma_concat_entry(m, g, b - first.len());
            assert(x.1 == 0 || x.1 == 1);
            lemma_pcie_grows(s, y.0 + 1, m);
        } else {
            let x = lemma_concat_entry(m, g, a - first.len());
            let y = lemma_concat_entry(m, g, b - first.len());
            lemma_pcie_grows(s, x.0 + 1, m);
            lemma_pcie_grows(s, y.0 + 1, m);
            if x.0 < y.0 {
                lemma_pcie_grows(s, x.0 + 1, y.0);
            }
            if y.0 < x.0 {
                lemma_pcie_grows(s, y.0 + 1, x.0);
            }
        }
    }
}

/// Copies between devices have no arrows to PCIe tracks.
pub proof fn lemma_device_copies_do_not_cross_pcie(s: Scene, i: int)
    requires
        is_device_to_device(s.memcpys[i].copy_kind),
    ensures
        pcie_arrows(s, i) == 0,
{
}

/// Where an arrow to a PCIe track arrives.
pub open spec fn is_pcie_finish(e: EventView) -> bool {
    e.cat == "pcie_usage_dependency"@ && e.ph == "f"@
}

proof fn lemma_pcie_cat()
    ensures
        "pcie_usage_dependency"@ != "__metadata"@,
        "pcie_usage_dependency"@ != "cuda_api"@,
        "pcie_usage_dependency"@ != "cuda"@,
        "pcie_usage_dependency"@ != "cuda_kernel_usage"@,
        "pcie_usage_dependency"@ != "nvtx"@,
        "pcie_usage_dependency"@ != "nvtx-kernel"@,
        "pcie_usage_dependency"@ != "cuda_launch_dependency"@,
        "pcie_usage_dependency"@ != "cuda_core_launch_dependency"@,
        "pcie_usage_dependency"@ != "cuda_memcpy"@,
        "pcie_usage_dependency"@ != "cuda_copy_usage"@,
        "pcie_usage_dependency"@ != "cuda_memcpy_dependency"@,
{
    reveal_strlit("pcie_usage_dependency");
    reveal_strlit("__metadata");
    reveal_strlit("cuda_api");
    reveal_strlit("cuda");
    reveal_strlit("cuda_kernel_usage");
    reveal_strlit("nvtx");
    reveal_strlit("nvtx-kernel");
    reveal_strlit("cuda_launch_dependency");
    reveal_strlit("cuda_core_launch_dependency");
    reveal_strlit("cuda_memcpy");
    reveal_strlit("cuda_copy_usage");
    reveal_strlit("cuda_memcpy_dependency");
    assert("pcie_usage_dependency"@[0] == 'p');
    assert("pcie_usage_dependency"@.len() == 21);
}

proof fn lemma_pcie_finishes_of_kernel(s: Scene, k: int)
    ensures
        picked(kernel_events(s, k), |e: EventView| is_pcie_finish(e)) == Seq::<EventView>::empty(),
{
    let p = |e: EventView| is_pcie_finish(e);
    lemma_pcie_cat();
    let events = kernel_events(s, k);
    assert forall|i: int| 0 <= i < events.len() implies !p(#[trigger] events[i]) by {
        assert(i == 0 || i == 1 || i == 2 || i == 3 || i == 4 || i == 5);
    }
    lemma_picked_none(events, p);
}

proof fn lemma_pcie_finishes_of_copy(s: Scene, i: int)
    ensures
        picked(copy_events(s, i), |e: EventView| is_pcie_finish(e)).len() == pcie_arrows(s, i),
{
    let p = |e: EventView| is_pcie_finish(e);
    lemma_pcie_cat();
    lemma_phases();
    let slices = copy_slices(s, i);
    assert forall|j: int| 0 <= j < slices.len() implies !p(#[trigger] slices[j]) by {
        assert(slices[j].ph == "X"@);
    }
    lemma_picked_none(slices, p);
    lemma_picked_add(slices, copy_arrows(s, i), p);
    match s.memcpys[i].launch_call {
        Some(c) => {
            let c = c as int;
            let first = copy_arrow(s, i, c);
            let n = pcie_arrows(s, i) as int;
            let f = |j: int| pcie_arrow(s, i, c, j);
            let g = |j: int| picked(pcie_arrow(s, i, c, j), p);
            let ends = |j: int| pcie_arrow(s, i, c, j)[1];
            let one = |j: int| seq![ends(j)];
            assert forall|j: int| 0 <= j < first.len() implies !p(#[trigger] first[j]) by {
                assert(j == 0 || j == 1);
            }
            lemma_picked_none(first, p);
            lemma_picked_add(first, concat(n, f), p);
            lemma_picked_concat(n, f, g, p);
            assert forall|j: int| 0 <= j < n implies #[trigger] g(j) == one(j) by {
                let a = pcie_arrow(s, i, c, j);
                assert(a =~= seq![a[0]] + seq![a[1]]);
                lemma_picked_add(seq![a[0]], seq![a[1]], p);
                lemma_picked_one(a[0], p);
                lemma_picked_one(a[1], p);
                assert(g(j) =~= one(j));
            }
            lemma_concat_same(n, g, one);
            lemma_concat_ones(n, ends);
        },
        None => {
            assert(copy_arrows(s, i) =~= Seq::<EventView>::empty());
        },
    }
}

proof fn lemma_concat_sizes<T>(n: int, f: spec_fn(int) -> Seq<T>, s: Scene)
    requires
        0 <= n,
        forall|i: int| 0 <= i < n ==> (#[trigger] f(i)).len() == pcie_arrows(s, i),
    ensures
        concat(n, f).len() == pcie_before(s, n),
    decreases n,
{
    if n > 0 {
        lemma_concat_sizes(n - 1, f, s);
        assert(f(n - 1).len() == pcie_arrows(s, n - 1));
    }
}

/// As many arrows arrive on PCIe tracks as the timeline reports.
pub proof fn lemma_pcie_finishes(s: Scene)
    ensures
        picked(timeline_events(s), |e: EventView| is_pcie_finish(e)).len() == pcie_before(s, s.memcpys.len() as int),
{
    let p = |e: EventView| is_pcie_finish(e);
    let n = s.kernels.len() as int;
    let m = s.memcpys.len() as int;
    let pf = |k: int| picked(kernel_events(s, k), p);
    let pg = |i: int| picked(copy_events(s, i), p);
    let none = |k: int| Seq::<EventView>::empty();
    assert(picked(timeline_events(s), p) == concat(n, pf) + concat(m, pg)) by {
        lemma_pcie_cat();
        lemma_picked_timeline(s, p);
    }
    assert forall|k: int| 0 <= k < n implies #[trigger] pf(k) == none(k) by {
        lemma_pcie_finishes_of_kernel(s, k);
    }
    lemma_concat_same(n, pf, none);
    lemma_concat_none::<EventView>(n);
    assert forall|i: int| 0 <= i < m implies (#[trigger] pg(i)).len() == pcie_arrows(s, i) by {
        lemma_pcie_finishes_of_copy(s, i);
    }
    lemma_concat_sizes(m, pg, s);
}

} // verus!
