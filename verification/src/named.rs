//! Every slice and range is drawn on a track that has a name.
use crate::devices::copy_track;
use crate::emit::timeline_events;
use crate::event::EventView;
use crate::flows::lemma_metadata_phase;
use crate::hierarchy::{lemma_copy_tracks_listed, lemma_nvtx_keys_listed};
use crate::laws::{
    lemma_call_entry_at, lemma_call_items_distinct, lemma_devices_listed, lemma_projected_entry_at,
    lemma_projected_items_distinct,
};
use crate::model::pid_of;
use crate::naming::{
    call_lanes, copy_track_naming, copy_track_section, core_lanes, core_naming, core_section, lane_section,
    metadata_events, nvtx_lanes, process_section, projected_lanes, stream_lanes, stream_naming, stream_section,
    thread_naming, ThreadTrack,
};
use crate::nesting::lemma_mark_track;
use crate::order::{lemma_integers_keyed, lemma_quad_keyed, lemma_triple_keyed, ordered};
use crate::ranges::range_events;
use crate::scene::{
    bound_devices, call_devices, call_entries, call_tid, copy_on_track, copy_stream_key, copy_stream_tid,
    copy_track_keys, core_tid, gpu_process, kernel_entries, kernel_group, kernel_stream_key, kernel_stream_tid,
    nvtx_keys, nvtx_tid, primary, projected_entries, projected_tid, range_devices, range_group, range_on_track, shown,
    stream_entries, Scene,
};
use crate::seqs::{concat, lemma_concat_all, lemma_concat_entry, lemma_concat_has};
use crate::slices::{
    call_events, copy_arrows, copy_events, copy_slices, kernel_events, kernel_process, pcie_arrow,
    pcie_arrows, usage_slice, usage_tid,
};
use crate::tracks::{distinct_items, lane_track, lemma_track_listed, Lane, Packing};
use vstd::prelude::*;

verus! {

/// The event names the track.
pub open spec fn names_track(e: EventView, pid: i64, tid: i64) -> bool {
    e.ph == "M"@ && e.name == "thread_name"@ && e.pid == pid && e.tid == tid
}

/// A metadata event names the track.
pub open spec fn track_named(s: Scene, pid: i64, tid: i64) -> bool {
    exists|i: int| 0 <= i < metadata_events(s).len() && names_track(#[trigger] metadata_events(s)[i], pid, tid)
}

/// Some event of a section names the track.
spec fn named_in(section: Seq<EventView>, pid: i64, tid: i64) -> bool {
    exists|i: int| 0 <= i < section.len() && names_track(#[trigger] section[i], pid, tid)
}

/// A track named in one part is named in the whole.
proof fn lemma_named_in_sum(a: Seq<EventView>, b: Seq<EventView>, pid: i64, tid: i64)
    requires
        named_in(a, pid, tid) || named_in(b, pid, tid),
    ensures
        named_in(a + b, pid, tid),
{
    if named_in(a, pid, tid) {
        let i = choose|i: int| 0 <= i < a.len() && names_track(#[trigger] a[i], pid, tid);
        assert((a + b)[i] == a[i]);
    } else {
        let i = choose|i: int| 0 <= i < b.len() && names_track(#[trigger] b[i], pid, tid);
        assert((a + b)[a.len() + i] == b[i]);
    }
}

/// What a section names, the metadata names.
proof fn lemma_section_counts(s: Scene, pid: i64, tid: i64)
    requires
        ({
            ||| named_in(stream_section(s), pid, tid)
            ||| named_in(core_section(s), pid, tid)
            ||| named_in(copy_track_section(s), pid, tid)
            ||| named_in(lane_section(s, ThreadTrack::Projected, projected_lanes(s)), pid, tid)
            ||| named_in(lane_section(s, ThreadTrack::Runtime, call_lanes(s)), pid, tid)
            ||| named_in(lane_section(s, ThreadTrack::Nvtx, nvtx_lanes(s)), pid, tid)
        }),
    ensures
        track_named(s, pid, tid),
{
    let a = process_section(s);
    let b = stream_section(s);
    let c = core_section(s);
    let d = copy_track_section(s);
    let e = lane_section(s, ThreadTrack::Projected, projected_lanes(s));
    let f = lane_section(s, ThreadTrack::Runtime, call_lanes(s));
    let g = lane_section(s, ThreadTrack::Nvtx, nvtx_lanes(s));
    if named_in(a, pid, tid) || named_in(b, pid, tid) {
        lemma_named_in_sum(a, b, pid, tid);
    }
    if named_in(a + b, pid, tid) || named_in(c, pid, tid) {
        lemma_named_in_sum(a + b, c, pid, tid);
    }
    if named_in(a + b + c, pid, tid) || named_in(d, pid, tid) {
        lemma_named_in_sum(a + b + c, d, pid, tid);
    }
    if named_in(a + b + c + d, pid, tid) || named_in(e, pid, tid) {
        lemma_named_in_sum(a + b + c + d, e, pid, tid);
    }
    if named_in(a + b + c + d + e, pid, tid) || named_in(f, pid, tid) {
        lemma_named_in_sum(a + b + c + d + e, f, pid, tid);
    }
    lemma_named_in_sum(a + b + c + d + e + f, g, pid, tid);
    let all = a + b + c + d + e + f + g;
    assert(metadata_events(s) == all);
    let i = choose|i: int| 0 <= i < all.len() && names_track(#[trigger] all[i], pid, tid);
    assert(names_track(metadata_events(s)[i], pid, tid));
}

proof fn lemma_lane_named(s: Scene, kind: ThreadTrack, lanes: Seq<Lane<(i64, i64, i64)>>, x: int)
    requires
        0 <= x < lanes.len(),
    ensures
        named_in(lane_section(s, kind, lanes), gpu_process(s, lanes[x].key.0, lanes[x].key.1), lanes[x].tid),
{
    let f = |i: int| thread_naming(s, kind, lanes[i]);
    let y = lemma_concat_has(lanes.len() as int, f, x, 0);
    assert(names_track(
        concat(lanes.len() as int, f)[y],
        gpu_process(s, lanes[x].key.0, lanes[x].key.1),
        lanes[x].tid,
    ));
}

/// An activity's stream track has a name.
proof fn lemma_stream_named(s: Scene, i: int)
    requires
        s.kernels.len() + s.memcpys.len() <= usize::MAX,
        0 <= i < stream_entries(s).len(),
    ensures
        ({
            let key = stream_entries(s)[i].0;
            let tid = lane_track(Packing::Disjoint, stream_entries(s), 1, key, stream_entries(s)[i].1.2);
            track_named(s, gpu_process(s, key.0, key.1), tid)
        }),
{
    lemma_quad_keyed();
    let e = stream_entries(s);
    let key = e[i].0;
    assert(distinct_items(e));
    let x = lemma_track_listed(Packing::Disjoint, e, 1, i);
    let lanes = stream_lanes(s);
    let f = |i: int| stream_naming(s, lanes[i]);
    let y = lemma_concat_has(lanes.len() as int, f, x, 0);
    let tid = lane_track(Packing::Disjoint, e, 1, key, e[i].1.2);
    assert(names_track(concat(lanes.len() as int, f)[y], gpu_process(s, key.0, key.1), tid));
    lemma_section_counts(s, gpu_process(s, key.0, key.1), tid);
}

proof fn lemma_kernel_named(s: Scene, k: int)
    requires
        s.kernels.len() + s.memcpys.len() <= usize::MAX,
        0 <= k < s.kernels.len(),
    ensures
        track_named(s, kernel_process(s, k), kernel_stream_tid(s, k)),
        track_named(s, kernel_process(s, k), core_tid(s, k)),
{
    assert(stream_entries(s)[k].0 == kernel_stream_key(s, k));
    lemma_stream_named(s, k);
    lemma_integers_keyed();
    lemma_triple_keyed::<i64, i64, i64>();
    let e = kernel_entries(s);
    assert(distinct_items(e));
    assert(e[k].0 == kernel_group(s, k));
    let x = lemma_track_listed(Packing::Disjoint, e, 400_000_000, k);
    let lanes = core_lanes(s);
    let f = |i: int| core_naming(s, lanes[i]);
    let y = lemma_concat_has(lanes.len() as int, f, x, 0);
    assert(names_track(concat(lanes.len() as int, f)[y], kernel_process(s, k), core_tid(s, k)));
    lemma_section_counts(s, kernel_process(s, k), core_tid(s, k));
}

proof fn lemma_copy_named(s: Scene, i: int)
    requires
        s.kernels.len() + s.memcpys.len() <= usize::MAX,
        0 <= i < s.memcpys.len(),
    ensures
        track_named(s, gpu_process(s, pid_of(s.memcpys[i].global_pid), primary(s, i)), copy_stream_tid(s, i)),
        forall|d: i64| #[trigger]
            shown(s, i).contains(d) ==> track_named(
                s,
                gpu_process(s, pid_of(s.memcpys[i].global_pid), d),
                usage_tid(s, i, d),
            ),
{
    let n = s.kernels.len() as int;
    assert(stream_entries(s)[n + i].0 == copy_stream_key(s, i));
    lemma_stream_named(s, n + i);
    lemma_copy_tracks_listed(s);
    let pid = pid_of(s.memcpys[i].global_pid);
    let keys = ordered(copy_track_keys(s));
    let f = |i: int| copy_track_naming(s, keys[i]);
    assert forall|d: i64| #[trigger] shown(s, i).contains(d) implies track_named(
        s,
        gpu_process(s, pid, d),
        usage_tid(s, i, d),
    ) by {
        let key = (pid, d, copy_track(s.memcpys[i].copy_kind));
        assert(copy_on_track(s, i, key));
        assert(copy_track_keys(s).contains(key));
        assert(keys.to_set().contains(key));
        let x = choose|x: int| 0 <= x < keys.len() && keys[x] == key;
        let y = lemma_concat_has(keys.len() as int, f, x, 0);
        assert(names_track(concat(keys.len() as int, f)[y], gpu_process(s, pid, d), usage_tid(s, i, d)));
        lemma_section_counts(s, gpu_process(s, pid, d), usage_tid(s, i, d));
    }
}

proof fn lemma_call_named(s: Scene, c: int, device: i64)
    requires
        s.runtime.len() <= usize::MAX,
        0 <= c < s.runtime.len(),
        call_devices(s, c).contains(device),
    ensures
        track_named(s, gpu_process(s, pid_of(s.runtime[c].global_tid), device), call_tid(s, c, device)),
{
    lemma_integers_keyed();
    lemma_triple_keyed::<i64, i64, i64>();
    lemma_call_items_distinct(s);
    let i = lemma_call_entry_at(s, c, device);
    let x = lemma_track_listed(Packing::Disjoint, call_entries(s), 1_100_000_000, i);
    lemma_lane_named(s, ThreadTrack::Runtime, call_lanes(s), x);
    lemma_section_counts(s, gpu_process(s, pid_of(s.runtime[c].global_tid), device), call_tid(s, c, device));
}

proof fn lemma_envelope_named(s: Scene, r: int, device: i64)
    requires
        s.nvtx.len() <= usize::MAX,
        0 <= r < s.nvtx.len(),
        bound_devices(s, r).contains(device),
    ensures
        track_named(s, gpu_process(s, s.nvtx[r].pid, device), projected_tid(s, r, device)),
{
    lemma_integers_keyed();
    lemma_triple_keyed::<i64, i64, i64>();
    lemma_projected_items_distinct(s);
    let i = lemma_projected_entry_at(s, r, device);
    let x = lemma_track_listed(Packing::Nested, projected_entries(s), 1_000_000_000, i);
    lemma_lane_named(s, ThreadTrack::Projected, projected_lanes(s), x);
    lemma_section_counts(s, gpu_process(s, s.nvtx[r].pid, device), projected_tid(s, r, device));
}

proof fn lemma_range_named(s: Scene, r: int, device: i64)
    requires
        0 <= r < s.nvtx.len(),
        range_devices(s, r).contains(device),
    ensures
        track_named(s, gpu_process(s, s.nvtx[r].pid, device), nvtx_tid(s, range_group(s, r, device))),
{
    lemma_nvtx_keys_listed(s);
    let key = range_group(s, r, device);
    let keys = ordered(nvtx_keys(s));
    assert(range_on_track(s, r, key));
    assert(nvtx_keys(s).contains(key));
    assert(keys.to_set().contains(key));
    let x = choose|x: int| 0 <= x < keys.len() && keys[x] == key;
    assert(nvtx_lanes(s)[x].key == key);
    lemma_lane_named(s, ThreadTrack::Nvtx, nvtx_lanes(s), x);
    lemma_section_counts(s, gpu_process(s, s.nvtx[r].pid, device), nvtx_tid(s, key));
}

/// The event is metadata, an end of an arrow, or drawn on a named track.
spec fn well_placed(s: Scene, e: EventView) -> bool {
    e.ph == "M"@ || e.id is Some || track_named(s, e.pid, e.tid)
}

proof fn lemma_both_placed(s: Scene, a: Seq<EventView>, b: Seq<EventView>)
    requires
        forall|i: int| 0 <= i < a.len() ==> well_placed(s, #[trigger] a[i]),
        forall|i: int| 0 <= i < b.len() ==> well_placed(s, #[trigger] b[i]),
    ensures
        forall|i: int| 0 <= i < (a + b).len() ==> well_placed(s, #[trigger] (a + b)[i]),
{
    assert forall|i: int| 0 <= i < (a + b).len() implies well_placed(s, #[trigger] (a + b)[i]) by {
        if i < a.len() {
            assert(well_placed(s, a[i]));
        } else {
            assert(well_placed(s, b[i - a.len()]));
        }
    }
}

proof fn lemma_copy_events_placed(s: Scene, i: int)
    requires
        s.kernels.len() + s.memcpys.len() <= usize::MAX,
        0 <= i < s.memcpys.len(),
    ensures
        forall|j: int| 0 <= j < copy_events(s, i).len() ==> well_placed(s, #[trigger] copy_events(s, i)[j]),
{
    lemma_copy_named(s, i);
    lemma_devices_listed(s);
    let v = ordered(shown(s, i));
    let slices = copy_slices(s, i);
    let arrows = copy_arrows(s, i);
    assert forall|j: int| 0 <= j < slices.len() implies well_placed(s, #[trigger] slices[j]) by {
        if j > 0 {
            assert(slices[j] == usage_slice(s, i, v[j - 1]));
            assert(v.to_set().contains(v[j - 1]));
            assert(shown(s, i).contains(v[j - 1]));
        }
    }
    assert forall|j: int| 0 <= j < arrows.len() implies well_placed(s, #[trigger] arrows[j]) by {
        let c = s.memcpys[i].launch_call->0 as int;
        let g = |j: int| pcie_arrow(s, i, c, j);
        if j >= 2 {
            let place = lemma_concat_entry(pcie_arrows(s, i) as int, g, j - 2);
            assert(place.1 == 0 || place.1 == 1);
        }
    }
    lemma_both_placed(s, slices, arrows);
}

proof fn lemma_kernel_events_placed(s: Scene, k: int)
    requires
        s.kernels.len() + s.memcpys.len() <= usize::MAX,
        0 <= k < s.kernels.len(),
    ensures
        forall|j: int| 0 <= j < kernel_events(s, k).len() ==> well_placed(s, #[trigger] kernel_events(s, k)[j]),
{
    lemma_kernel_named(s, k);
    assert forall|j: int| 0 <= j < kernel_events(s, k).len() implies well_placed(
        s,
        #[trigger] kernel_events(s, k)[j],
    ) by {
        assert(0 <= j < 6);
    }
}

proof fn lemma_call_events_placed(s: Scene, c: int)
    requires
        s.runtime.len() <= usize::MAX,
        0 <= c < s.runtime.len(),
    ensures
        forall|j: int| 0 <= j < call_events(s, c).len() ==> well_placed(s, #[trigger] call_events(s, c)[j]),
{
    lemma_devices_listed(s);
    let v = ordered(call_devices(s, c));
    assert forall|j: int| 0 <= j < call_events(s, c).len() implies well_placed(s, #[trigger] call_events(s, c)[j]) by {
        assert(v.to_set().contains(v[j]));
        lemma_call_named(s, c, v[j]);
    }
}

proof fn lemma_marks_placed(s: Scene)
    requires
        s.nvtx.len() <= usize::MAX,
    ensures
        forall|i: int| 0 <= i < range_events(s).len() ==> well_placed(s, #[trigger] range_events(s)[i]),
{
    assert forall|i: int| 0 <= i < range_events(s).len() implies well_placed(s, #[trigger] range_events(s)[i]) by {
        let of = lemma_mark_track(s, i);
        if of.2 {
            lemma_envelope_named(s, of.0, of.1);
        } else {
            lemma_range_named(s, of.0, of.1);
        }
    }
}

/// Every slice and every begin or end of a range is on a track that has a name.
pub proof fn lemma_every_slice_is_on_a_named_track(s: Scene)
    requires
        s.kernels.len() + s.memcpys.len() <= usize::MAX,
        s.runtime.len() <= usize::MAX,
        s.nvtx.len() <= usize::MAX,
    ensures
        forall|i: int|
            0 <= i < timeline_events(s).len() && (#[trigger] timeline_events(s)[i]).ph != "M"@
                && timeline_events(s)[i].id is None ==> track_named(
                s,
                timeline_events(s)[i].pid,
                timeline_events(s)[i].tid,
            ),
{
    let q = |e: EventView| well_placed(s, e);
    let a = metadata_events(s);
    let fb = |c: int| call_events(s, c);
    let fc = |k: int| kernel_events(s, k);
    let fd = |i: int| copy_events(s, i);
    let b = concat(s.runtime.len() as int, fb);
    let c = concat(s.kernels.len() as int, fc);
    let d = concat(s.memcpys.len() as int, fd);
    let e = range_events(s);
    assert(forall|i: int| 0 <= i < a.len() ==> well_placed(s, #[trigger] a[i])) by {
        lemma_metadata_phase(s);
    }
    lemma_marks_placed(s);
    assert(forall|i: int| 0 <= i < b.len() ==> well_placed(s, #[trigger] b[i])) by {
        assert forall|x: int, j: int| 0 <= x < s.runtime.len() && 0 <= j < fb(x).len() implies q(
            #[trigger] fb(x)[j],
        ) by {
            lemma_call_events_placed(s, x);
        }
        lemma_concat_all(s.runtime.len() as int, fb, q);
        assert forall|i: int| 0 <= i < b.len() implies well_placed(s, #[trigger] b[i]) by {
            assert(q(b[i]));
        }
    }
    assert(forall|i: int| 0 <= i < c.len() ==> well_placed(s, #[trigger] c[i])) by {
        assert forall|x: int, j: int| 0 <= x < s.kernels.len() && 0 <= j < fc(x).len() implies q(
            #[trigger] fc(x)[j],
        ) by {
            lemma_kernel_events_placed(s, x);
        }
        lemma_concat_all(s.kernels.len() as int, fc, q);
        assert forall|i: int| 0 <= i < c.len() implies well_placed(s, #[trigger] c[i]) by {
            assert(q(c[i]));
        }
    }
    assert(forall|i: int| 0 <= i < d.len() ==> well_placed(s, #[trigger] d[i])) by {
        assert forall|x: int, j: int| 0 <= x < s.memcpys.len() && 0 <= j < fd(x).len() implies q(
            #[trigger] fd(x)[j],
        ) by {
            lemma_copy_events_placed(s, x);
        }
        lemma_concat_all(s.memcpys.len() as int, fd, q);
        assert forall|i: int| 0 <= i < d.len() implies well_placed(s, #[trigger] d[i]) by {
            assert(q(d[i]));
        }
    }
    lemma_both_placed(s, a, b);
    lemma_both_placed(s, a + b, c);
    lemma_both_placed(s, a + b + c, d);
    lemma_both_placed(s, a + b + c + d, e);
    assert(timeline_events(s) == a + b + c + d + e);
    assert forall|i: int|
        0 <= i < timeline_events(s).len() && (#[trigger] timeline_events(s)[i]).ph != "M"@
            && timeline_events(s)[i].id is None implies track_named(
        s,
        timeline_events(s)[i].pid,
        timeline_events(s)[i].tid,
    ) by {
        assert(well_placed(s, timeline_events(s)[i]));
    }
}

} // verus!
