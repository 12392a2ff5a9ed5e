//! How the tracks of kernels, copies, calls and ranges are called.
use crate::devices::{copy_track, copy_track_text};
use crate::event::{ArgView, EventView, ValueView};
use crate::hierarchy::{lemma_copy_tracks_listed, lemma_gpu_processes_listed, lemma_nvtx_keys_listed};
use crate::laws::{
    lemma_call_entry_at, lemma_call_items_distinct, lemma_projected_entry_at, lemma_projected_items_distinct,
};
use crate::model::{pid_of, tid_of};
use crate::naming::{
    call_lanes, copy_track_naming, copy_track_section, copy_track_sort, core_label, core_lanes, core_naming, core_section,
    lane_section, metadata_events, nvtx_lanes, process_naming, process_section, projected_lanes, stream_lanes, stream_naming,
    stream_section, thread_naming, ThreadTrack,
};
use crate::order::{lemma_integers_keyed, lemma_quad_keyed, lemma_triple_keyed, ordered};
use crate::scene::{
    bound_devices, call_devices, call_entries, call_tid, copy_on_track, copy_stream_key, copy_stream_tid,
    copy_track_keys, core_tid, gpu_keys, gpu_process, kernel_entries, kernel_group, kernel_stream_key, kernel_stream_tid,
    nvtx_keys, nvtx_tid, primary, projected_entries, projected_tid, range_devices, range_group, range_on_track, shown,
    stream_entries, Scene,
};
use crate::seqs::lemma_concat_has;
use crate::slices::{kernel_process, usage_tid};
use crate::text::decimal;
use crate::tracks::{distinct_items, lane_track, lemma_track_listed, Lane, Packing};
use vstd::prelude::*;

verus! {

/// The event that gives a process or a track a name.
pub open spec fn naming_event(what: Seq<char>, pid: i64, tid: i64, label: Seq<char>) -> EventView {
    EventView {
        name: what,
        ph: "M"@,
        cat: "__metadata"@,
        ts_ns: 0,
        dur_ns: None,
        tid,
        pid,
        args: seq![ArgView { key: "name"@, value: ValueView::Text(label) }],
        id: None,
        bp: None,
    }
}

/// The timeline calls the track so.
pub open spec fn track_called(s: Scene, pid: i64, tid: i64, label: Seq<char>) -> bool {
    metadata_events(s).contains(naming_event("thread_name"@, pid, tid, label))
}

/// The timeline calls the process so.
pub open spec fn process_called(s: Scene, pid: i64, label: Seq<char>) -> bool {
    metadata_events(s).contains(naming_event("process_name"@, pid, 0, label))
}

/// The event that gives a process or a track its place.
pub open spec fn placing_event(what: Seq<char>, pid: i64, tid: i64, place: i64) -> EventView {
    EventView {
        args: seq![ArgView { key: "sort_index"@, value: ValueView::Int(place) }],
        ..naming_event(what, pid, tid, Seq::empty())
    }
}

/// The timeline gives the track this place.
pub open spec fn track_placed(s: Scene, pid: i64, tid: i64, place: int) -> bool {
    metadata_events(s).contains(placing_event("thread_sort_index"@, pid, tid, place as i64))
}

/// The timeline gives the process this place.
pub open spec fn process_placed(s: Scene, pid: i64, place: int) -> bool {
    metadata_events(s).contains(placing_event("process_sort_index"@, pid, 0, place as i64))
}

/// A name with the number of a lane, which the first lane goes without.
pub open spec fn laned(plain: Seq<char>, lane: int) -> Seq<char> {
    if lane == 0 {
        plain
    } else {
        plain + " / Lane "@ + decimal(lane + 1)
    }
}

/// What a device of a process is called.
pub open spec fn device_name(device: i64, pid: i64) -> Seq<char> {
    "CUDA Device "@ + decimal(device as int) + " / Source PID "@ + decimal(pid as int)
}

proof fn lemma_sum_contains(a: Seq<EventView>, b: Seq<EventView>, e: EventView)
    requires
        a.contains(e) || b.contains(e),
    ensures
        (a + b).contains(e),
{
    if a.contains(e) {
        let i = choose|i: int| 0 <= i < a.len() && a[i] == e;
        assert((a + b)[i] == e);
    } else {
        let i = choose|i: int| 0 <= i < b.len() && b[i] == e;
        assert((a + b)[a.len() + i] == e);
    }
}

proof fn lemma_metadata_holds(s: Scene, e: EventView)
    requires
        ({
            ||| process_section(s).contains(e)
            ||| stream_section(s).contains(e)
            ||| core_section(s).contains(e)
            ||| copy_track_section(s).contains(e)
            ||| lane_section(s, ThreadTrack::Projected, projected_lanes(s)).contains(e)
            ||| lane_section(s, ThreadTrack::Runtime, call_lanes(s)).contains(e)
            ||| lane_section(s, ThreadTrack::Nvtx, nvtx_lanes(s)).contains(e)
        }),
    ensures
        metadata_events(s).contains(e),
{
    let a = process_section(s);
    let b = stream_section(s);
    let c = core_section(s);
    let d = copy_track_section(s);
    let x = lane_section(s, ThreadTrack::Projected, projected_lanes(s));
    let y = lane_section(s, ThreadTrack::Runtime, call_lanes(s));
    let z = lane_section(s, ThreadTrack::Nvtx, nvtx_lanes(s));
    if a.contains(e) || b.contains(e) {
        lemma_sum_contains(a, b, e);
    }
    if (a + b).contains(e) || c.contains(e) {
        lemma_sum_contains(a + b, c, e);
    }
    if (a + b + c).contains(e) || d.contains(e) {
        lemma_sum_contains(a + b + c, d, e);
    }
    if (a + b + c + d).contains(e) || x.contains(e) {
        lemma_sum_contains(a + b + c + d, x, e);
    }
    if (a + b + c + d + x).contains(e) || y.contains(e) {
        lemma_sum_contains(a + b + c + d + x, y, e);
    }
    lemma_sum_contains(a + b + c + d + x + y, z, e);
    assert(metadata_events(s) == a + b + c + d + x + y + z);
}

/// Every device of a process is a process of the timeline under the name of both, placed
/// by its number.
pub proof fn lemma_processes_are_called(s: Scene, pid: i64, device: i64)
    requires
        gpu_keys(s).contains((pid, device)),
    ensures
        process_called(s, gpu_process(s, pid, device), device_name(device, pid)),
        process_placed(s, gpu_process(s, pid, device), gpu_process(s, pid, device) - 2_000_010_000),
{
    lemma_gpu_processes_listed(s);
    let keys = ordered(gpu_keys(s));
    let key = (pid, device);
    assert(keys.to_set().contains(key));
    let x = choose|x: int| 0 <= x < keys.len() && keys[x] == key;
    let f = |i: int| process_naming(s, keys[i]);
    let y = lemma_concat_has(keys.len() as int, f, x, 0);
    let e = naming_event("process_name"@, gpu_process(s, pid, device), 0, device_name(device, pid));
    assert(f(x)[0] == e);
    assert(process_section(s)[y] == e);
    lemma_metadata_holds(s, e);
    let z = lemma_concat_has(keys.len() as int, f, x, 1);
    let p = placing_event(
        "process_sort_index"@,
        gpu_process(s, pid, device),
        0,
        (gpu_process(s, pid, device) - 2_000_010_000) as i64,
    );
    assert(f(x)[1] == p);
    assert(process_section(s)[z] == p);
    lemma_metadata_holds(s, p);
}

proof fn lemma_stream_called(s: Scene, i: int) -> (lane: int)
    requires
        s.kernels.len() + s.memcpys.len() <= usize::MAX,
        0 <= i < stream_entries(s).len(),
    ensures
        lane >= 0,
        ({
            let key = stream_entries(s)[i].0;
            let tid = lane_track(Packing::Disjoint, stream_entries(s), 1, key, stream_entries(s)[i].1.2);
            &&& track_called(
                s,
                gpu_process(s, key.0, key.1),
                tid,
                laned("CUDA HW Context "@ + decimal(key.2 as int) + " / Stream "@ + decimal(key.3 as int), lane),
            )
            &&& track_placed(s, gpu_process(s, key.0, key.1), tid, tid as int)
        }),
{
    lemma_quad_keyed();
    let e = stream_entries(s);
    let key = e[i].0;
    assert(distinct_items(e));
    let x = lemma_track_listed(Packing::Disjoint, e, 1, i);
    let lanes = stream_lanes(s);
    let f = |i: int| stream_naming(s, lanes[i]);
    let y = lemma_concat_has(lanes.len() as int, f, x, 0);
    let tid = lane_track(Packing::Disjoint, e, 1, key, e[i].1.2);
    let lane = lanes[x].lane as int;
    let event = naming_event(
        "thread_name"@,
        gpu_process(s, key.0, key.1),
        tid,
        laned("CUDA HW Context "@ + decimal(key.2 as int) + " / Stream "@ + decimal(key.3 as int), lane),
    );
    assert(f(x)[0] == event);
    assert(stream_section(s)[y] == event);
    lemma_metadata_holds(s, event);
    let z = lemma_concat_has(lanes.len() as int, f, x, 1);
    let place = placing_event("thread_sort_index"@, gpu_process(s, key.0, key.1), tid, tid);
    assert(f(x)[1] == place);
    assert(stream_section(s)[z] == place);
    lemma_metadata_holds(s, place);
    lane
}

/// The stream track of a kernel is called by its context and stream, and placed by its
/// number.
pub proof fn lemma_kernel_stream_called(s: Scene, k: int) -> (lane: int)
    requires
        s.kernels.len() + s.memcpys.len() <= usize::MAX,
        0 <= k < s.kernels.len(),
    ensures
        lane >= 0,
        track_called(
            s,
            kernel_process(s, k),
            kernel_stream_tid(s, k),
            laned(
                "CUDA HW Context "@ + decimal(s.kernels[k].context as int) + " / Stream "@ + decimal(
                    s.kernels[k].stream as int,
                ),
                lane,
            ),
        ),
        track_placed(s, kernel_process(s, k), kernel_stream_tid(s, k), kernel_stream_tid(s, k) as int),
{
    assert(stream_entries(s)[k].0 == kernel_stream_key(s, k));
    lemma_stream_called(s, k)
}

/// The stream track of a copy is called by its context and stream, and placed by its
/// number.
pub proof fn lemma_copy_stream_called(s: Scene, i: int) -> (lane: int)
    requires
        s.kernels.len() + s.memcpys.len() <= usize::MAX,
        0 <= i < s.memcpys.len(),
    ensures
        lane >= 0,
        track_called(
            s,
            gpu_process(s, pid_of(s.memcpys[i].global_pid), primary(s, i)),
            copy_stream_tid(s, i),
            laned(
                "CUDA HW Context "@ + decimal(s.memcpys[i].context as int) + " / Stream "@ + decimal(
                    s.memcpys[i].stream as int,
                ),
                lane,
            ),
        ),
        track_placed(s, gpu_process(s, pid_of(s.memcpys[i].global_pid), primary(s, i)), copy_stream_tid(s, i), copy_stream_tid(s, i) as int),
{
    let n = s.kernels.len() as int;
    assert(stream_entries(s)[n + i].0 == copy_stream_key(s, i));
    lemma_stream_called(s, n + i)
}

/// The core timeline track of a kernel is called so, and placed above the copy tracks.
pub proof fn lemma_core_called(s: Scene, k: int) -> (lane: int)
    requires
        s.kernels.len() <= usize::MAX,
        0 <= k < s.kernels.len(),
    ensures
        lane >= 0,
        track_called(s, kernel_process(s, k), core_tid(s, k), laned("CUDA Core Timeline"@, lane)),
        track_placed(s, kernel_process(s, k), core_tid(s, k), lane - 300),
{
    lemma_integers_keyed();
    lemma_triple_keyed::<i64, i64, i64>();
    let e = kernel_entries(s);
    assert(distinct_items(e));
    assert(e[k].0 == kernel_group(s, k));
    let x = lemma_track_listed(Packing::Disjoint, e, 400_000_000, k);
    let lanes = core_lanes(s);
    let f = |i: int| core_naming(s, lanes[i]);
    let y = lemma_concat_has(lanes.len() as int, f, x, 0);
    let lane = lanes[x].lane as int;
    let label = laned("CUDA Core Timeline"@, lane);
    assert(label =~= core_label(lane)) by {
        reveal_strlit("CUDA Core Timeline");
        reveal_strlit(" / Lane ");
        reveal_strlit("CUDA Core Timeline / Lane ");
        assert("CUDA Core Timeline"@ + " / Lane "@ =~= "CUDA Core Timeline / Lane "@);
    }
    let event = naming_event("thread_name"@, kernel_process(s, k), core_tid(s, k), label);
    assert(f(x)[0] == event);
    assert(core_section(s)[y] == event);
    lemma_metadata_holds(s, event);
    let z = lemma_concat_has(lanes.len() as int, f, x, 1);
    let place = placing_event("thread_sort_index"@, kernel_process(s, k), core_tid(s, k), (lane - 300) as i64);
    assert(f(x)[1] == place);
    assert(core_section(s)[z] == place);
    lemma_metadata_holds(s, place);
    lane
}

/// The copy track of a copy under a device is called and placed by the traffic that it
/// shows.
pub proof fn lemma_usage_called(s: Scene, i: int, d: i64)
    requires
        0 <= i < s.memcpys.len(),
        shown(s, i).contains(d),
    ensures
        ({
            let kind = s.memcpys[i].copy_kind;
            let pid = gpu_process(s, pid_of(s.memcpys[i].global_pid), d);
            let tid = usage_tid(s, i, d);
            if kind == 1 || kind == 2 || kind == 11 || kind == 12 {
                track_called(s, pid, tid, "PCIe Usage"@) && track_placed(s, pid, tid, -200)
            } else if kind == 3 || kind == 8 || kind == 13 {
                track_called(s, pid, tid, "GPU Copy D2D"@) && track_placed(s, pid, tid, -190)
            } else {
                track_called(s, pid, tid, "CUDA Copy Unknown"@) && track_placed(s, pid, tid, -180)
            }
        }),
{
    lemma_copy_tracks_listed(s);
    let pid = pid_of(s.memcpys[i].global_pid);
    let keys = ordered(copy_track_keys(s));
    let f = |i: int| copy_track_naming(s, keys[i]);
    let key = (pid, d, copy_track(s.memcpys[i].copy_kind));
    assert(copy_on_track(s, i, key));
    assert(copy_track_keys(s).contains(key));
    assert(keys.to_set().contains(key));
    let x = choose|x: int| 0 <= x < keys.len() && keys[x] == key;
    let y = lemma_concat_has(keys.len() as int, f, x, 0);
    let event = naming_event("thread_name"@, gpu_process(s, pid, d), usage_tid(s, i, d), copy_track_text(key.2));
    assert(f(x)[0] == event);
    assert(copy_track_section(s)[y] == event);
    lemma_metadata_holds(s, event);
    let z = lemma_concat_has(keys.len() as int, f, x, 1);
    let place = placing_event(
        "thread_sort_index"@,
        gpu_process(s, pid, d),
        usage_tid(s, i, d),
        copy_track_sort(key.2),
    );
    assert(f(x)[1] == place);
    assert(copy_track_section(s)[z] == place);
    lemma_metadata_holds(s, place);
}

proof fn lemma_lane_called(s: Scene, kind: ThreadTrack, lanes: Seq<Lane<(i64, i64, i64)>>, x: int, label: Seq<char>)
    requires
        0 <= x < lanes.len(),
        thread_naming(s, kind, lanes[x])[0] == naming_event(
            "thread_name"@,
            gpu_process(s, lanes[x].key.0, lanes[x].key.1),
            lanes[x].tid,
            label,
        ),
        ({
            ||| kind is Projected && lanes == projected_lanes(s)
            ||| kind is Runtime && lanes == call_lanes(s)
            ||| kind is Nvtx && lanes == nvtx_lanes(s)
        }),
    ensures
        track_called(s, gpu_process(s, lanes[x].key.0, lanes[x].key.1), lanes[x].tid, label),
{
    let f = |i: int| thread_naming(s, kind, lanes[i]);
    let y = lemma_concat_has(lanes.len() as int, f, x, 0);
    let event = naming_event(
        "thread_name"@,
        gpu_process(s, lanes[x].key.0, lanes[x].key.1),
        lanes[x].tid,
        label,
    );
    assert(lane_section(s, kind, lanes)[y] == event);
    lemma_metadata_holds(s, event);
}

/// The track of a call under a device is called by its thread, with its lane counted
/// from one.
pub proof fn lemma_call_called(s: Scene, c: int, device: i64) -> (lane: int)
    requires
        s.runtime.len() <= usize::MAX,
        0 <= c < s.runtime.len(),
        call_devices(s, c).contains(device),
    ensures
        lane >= 0,
        track_called(
            s,
            gpu_process(s, pid_of(s.runtime[c].global_tid), device),
            call_tid(s, c, device),
            "CUDA API "@ + decimal(tid_of(s.runtime[c].global_tid) as int) + " / Lane "@ + decimal(
                lane + 1,
            ),
        ),
{
    lemma_integers_keyed();
    lemma_triple_keyed::<i64, i64, i64>();
    lemma_call_items_distinct(s);
    let i = lemma_call_entry_at(s, c, device);
    let x = lemma_track_listed(Packing::Disjoint, call_entries(s), 1_100_000_000, i);
    let lane = call_lanes(s)[x].lane as int;
    lemma_lane_called(
        s,
        ThreadTrack::Runtime,
        call_lanes(s),
        x,
        "CUDA API "@ + decimal(tid_of(s.runtime[c].global_tid) as int) + " / Lane "@ + decimal(lane + 1),
    );
    lane
}

/// The track of a kernel envelope is called by the thread of its range.
pub proof fn lemma_envelope_called(s: Scene, r: int, device: i64) -> (lane: int)
    requires
        s.nvtx.len() <= usize::MAX,
        0 <= r < s.nvtx.len(),
        bound_devices(s, r).contains(device),
    ensures
        lane >= 0,
        track_called(
            s,
            gpu_process(s, s.nvtx[r].pid, device),
            projected_tid(s, r, device),
            laned("NVTX Kernel "@ + decimal(s.nvtx[r].tid as int), lane),
        ),
{
    lemma_integers_keyed();
    lemma_triple_keyed::<i64, i64, i64>();
    lemma_projected_items_distinct(s);
    let i = lemma_projected_entry_at(s, r, device);
    let x = lemma_track_listed(Packing::Nested, projected_entries(s), 1_000_000_000, i);
    let lane = projected_lanes(s)[x].lane as int;
    lemma_lane_called(
        s,
        ThreadTrack::Projected,
        projected_lanes(s),
        x,
        laned("NVTX Kernel "@ + decimal(s.nvtx[r].tid as int), lane),
    );
    lane
}

/// The track of a range under a device is called by its thread.
pub proof fn lemma_range_called(s: Scene, r: int, device: i64)
    requires
        0 <= r < s.nvtx.len(),
        range_devices(s, r).contains(device),
    ensures
        track_called(
            s,
            gpu_process(s, s.nvtx[r].pid, device),
            nvtx_tid(s, range_group(s, r, device)),
            "NVTX Thread "@ + decimal(s.nvtx[r].tid as int),
        ),
{
    lemma_nvtx_keys_listed(s);
    let key = range_group(s, r, device);
    let keys = ordered(nvtx_keys(s));
    assert(range_on_track(s, r, key));
    assert(nvtx_keys(s).contains(key));
    assert(keys.to_set().contains(key));
    let x = choose|x: int| 0 <= x < keys.len() && keys[x] == key;
    assert(nvtx_lanes(s)[x].key == key);
    lemma_lane_called(s, ThreadTrack::Nvtx, nvtx_lanes(s), x, "NVTX Thread "@ + decimal(s.nvtx[r].tid as int));
}

} // verus!
