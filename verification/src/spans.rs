//! What the timeline shows of every range and of its kernels.
use crate::contents::{has_arg, is_on, lemma_has, lemma_ranges_at};
use crate::emit::timeline_events;
use crate::event::{ArgView, EventView, ValueView};
use crate::labels::{laned, lemma_envelope_called, lemma_processes_are_called, lemma_range_called};
use crate::laws::lemma_devices_listed;
use crate::nesting::{lemma_mark_present, lemma_sorted_marks};
use crate::order::{ordered, sorted};
use crate::ranges::{
    all_marks, all_track_ranges, begins, both_ends, envelope_on, mark_event, range_args, range_events, range_on,
    track_ranges, TrackRange,
};
use crate::scene::{
    bound_devices, gpu_keys, lemma_extra_pids, placeable, range_devices, range_placed, scene_devices, Scene,
};
use crate::seqs::lemma_concat_has;
use crate::text::decimal;
use vstd::prelude::*;

verus! {

/// The arguments of a range's events under a device.
pub open spec fn tells_range(s: Scene, r: int, device: i64, args: Seq<ArgView>) -> bool {
    &&& args.len() == 3
    &&& has_arg(args, "sourcePid"@, ValueView::Int(s.nvtx[r].pid))
    &&& has_arg(args, "sourceTid"@, ValueView::Int(s.nvtx[r].tid))
    &&& has_arg(args, "deviceId"@, ValueView::Int(device))
}

/// The event is one end of a range, at an instant.
pub open spec fn is_end(s: Scene, e: EventView, ph: Seq<char>, name: Seq<char>, cat: Seq<char>, at: i64) -> bool {
    &&& e.ph == ph
    &&& e.name == name
    &&& e.cat == cat
    &&& e.ts_ns == (at - s.origin_ns) as i64
    &&& e.dur_ns is None
    &&& e.id is None
    &&& e.bp is None
}

/// Both ends of a range on a track are in the timeline.
proof fn lemma_ends_drawn(s: Scene, d: TrackRange, i: int) -> (x: (int, int))
    requires
        s.nvtx.len() <= usize::MAX,
        0 <= i < all_track_ranges(s).len(),
        all_track_ranges(s)[i] == d,
    ensures
        0 <= x.0 < timeline_events(s).len(),
        0 <= x.1 < timeline_events(s).len(),
        ({
            let marks = both_ends(d, begins(all_track_ranges(s)));
            &&& timeline_events(s)[x.0] == mark_event(s, marks[0])
            &&& timeline_events(s)[x.1] == mark_event(s, marks[1])
        }),
{
    let marks = both_ends(d, begins(all_track_ranges(s)));
    let placed = sorted(all_marks(s));
    lemma_sorted_marks(s);
    lemma_mark_present(s, i, 0);
    lemma_mark_present(s, i, 1);
    assert(placed.contains(marks[0]));
    assert(placed.contains(marks[1]));
    let a = choose|a: int| 0 <= a < placed.len() && placed[a] == marks[0];
    let b = choose|b: int| 0 <= b < placed.len() && placed[b] == marks[1];
    assert(range_events(s)[a] == mark_event(s, marks[0]));
    assert(range_events(s)[b] == mark_event(s, marks[1]));
    (lemma_ranges_at(s, a), lemma_ranges_at(s, b))
}

proof fn lemma_marks_say(s: Scene, d: TrackRange, r: int, name: Seq<char>, cat: Seq<char>)
    requires
        0 <= r <= usize::MAX,
        d.range == r,
        d.projected == 0 || d.projected == 1,
        name == s.nvtx[r].name@,
        cat == (if d.projected == 1 {
            "nvtx-kernel"@
        } else {
            "nvtx"@
        }),
    ensures
        ({
            let marks = both_ends(d, begins(all_track_ranges(s)));
            let a = mark_event(s, marks[0]);
            let b = mark_event(s, marks[1]);
            &&& is_end(s, a, "B"@, name, cat, d.start)
            &&& is_end(s, b, "E"@, name, cat, d.end)
            &&& a.pid == d.pid && a.tid == d.tid
            &&& b.pid == d.pid && b.tid == d.tid
            &&& tells_range(s, r, d.device, a.args)
            &&& tells_range(s, r, d.device, b.args)
        }),
{
    let marks = both_ends(d, begins(all_track_ranges(s)));
    let a = mark_event(s, marks[0]);
    let b = mark_event(s, marks[1]);
    let args = range_args(s, r, d.device);
    assert(a.args == args);
    assert(b.args == args);
    lemma_has(args, 0);
    lemma_has(args, 1);
    lemma_has(args, 2);
}

/// A range begins and ends on the track of its thread under each of its devices.
pub proof fn lemma_range_is_shown(s: Scene, r: int, device: i64) -> (x: (int, int))
    requires
        placeable(s),
        s.nvtx.len() <= usize::MAX,
        0 <= r < s.nvtx.len(),
        range_devices(s, r).contains(device),
    ensures
        0 <= x.0 < timeline_events(s).len(),
        0 <= x.1 < timeline_events(s).len(),
        is_end(s, timeline_events(s)[x.0], "B"@, s.nvtx[r].name@, "nvtx"@, s.nvtx[r].start),
        is_end(s, timeline_events(s)[x.1], "E"@, s.nvtx[r].name@, "nvtx"@, s.nvtx[r].end),
        is_on(
            s,
            timeline_events(s)[x.0],
            device,
            s.nvtx[r].pid,
            "NVTX Thread "@ + decimal(s.nvtx[r].tid as int),
        ),
        timeline_events(s)[x.1].pid == timeline_events(s)[x.0].pid,
        timeline_events(s)[x.1].tid == timeline_events(s)[x.0].tid,
        tells_range(s, r, device, timeline_events(s)[x.0].args),
        tells_range(s, r, device, timeline_events(s)[x.1].args),
{
    let d = range_on(s, r, device);
    let v = ordered(range_devices(s, r));
    assert(v.to_set().contains(device)) by {
        lemma_devices_listed(s);
    }
    let j = choose|j: int| 0 <= j < v.len() && v[j] == device;
    let f = |r: int| track_ranges(s, r);
    assert(f(r)[j] == d);
    let i = lemma_concat_has(s.nvtx.len() as int, f, r, j);
    let x = lemma_ends_drawn(s, d, i);
    lemma_marks_say(s, d, r, s.nvtx[r].name@, "nvtx"@);
    assert(gpu_keys(s).contains((s.nvtx[r].pid, device))) by {
        lemma_extra_pids(s);
        assert(range_placed(s, r));
        if bound_devices(s, r).is_empty() {
            assert(scene_devices(s)[s.nvtx[r].pid].contains(device));
        }
    }
    lemma_processes_are_called(s, s.nvtx[r].pid, device);
    lemma_range_called(s, r, device);
    x
}

/// The kernels launched from inside a range are shown as one envelope on each of their
/// devices, from the first start to the last end.
pub proof fn lemma_envelope_is_shown(s: Scene, r: int, device: i64) -> (x: (int, int))
    requires
        placeable(s),
        s.nvtx.len() <= usize::MAX,
        0 <= r < s.nvtx.len(),
        s.nvtx[r].kernel_bounds@.contains_key(device),
    ensures
        0 <= x.0 < timeline_events(s).len(),
        0 <= x.1 < timeline_events(s).len(),
        is_end(
            s,
            timeline_events(s)[x.0],
            "B"@,
            s.nvtx[r].name@,
            "nvtx-kernel"@,
            s.nvtx[r].kernel_bounds@[device].0,
        ),
        is_end(
            s,
            timeline_events(s)[x.1],
            "E"@,
            s.nvtx[r].name@,
            "nvtx-kernel"@,
            s.nvtx[r].kernel_bounds@[device].1,
        ),
        exists|lane: int|
            lane >= 0 && is_on(
                s,
                timeline_events(s)[x.0],
                device,
                s.nvtx[r].pid,
                #[trigger] laned("NVTX Kernel "@ + decimal(s.nvtx[r].tid as int), lane),
            ),
        timeline_events(s)[x.1].pid == timeline_events(s)[x.0].pid,
        timeline_events(s)[x.1].tid == timeline_events(s)[x.0].tid,
        tells_range(s, r, device, timeline_events(s)[x.0].args),
        tells_range(s, r, device, timeline_events(s)[x.1].args),
{
    let d = envelope_on(s, r, device);
    let n = ordered(range_devices(s, r)).len() as int;
    let v = ordered(bound_devices(s, r));
    assert(bound_devices(s, r).contains(device));
    assert(v.to_set().contains(device)) by {
        lemma_devices_listed(s);
    }
    let j = choose|j: int| 0 <= j < v.len() && v[j] == device;
    let f = |r: int| track_ranges(s, r);
    assert(f(r)[n + j] == d);
    let i = lemma_concat_has(s.nvtx.len() as int, f, r, n + j);
    let x = lemma_ends_drawn(s, d, i);
    lemma_marks_say(s, d, r, s.nvtx[r].name@, "nvtx-kernel"@);
    assert(range_placed(s, r));
    lemma_processes_are_called(s, s.nvtx[r].pid, device);
    let lane = lemma_envelope_called(s, r, device);
    let label = laned("NVTX Kernel "@ + decimal(s.nvtx[r].tid as int), lane);
    assert(is_on(s, timeline_events(s)[x.0], device, s.nvtx[r].pid, label));
    x
}

} // verus!
