//! NVTX ranges as begin/end stacks, and their table rows.
use crate::event::{
    append_rows, arg, arg_views, event_views, int_arg, row_views, Arg, ArgView, EventView, RowView, TraceEvent,
    TraceRow, ValueView,
};
use crate::model::{elapsed, nanos_between};
use crate::naming::{device_label, label_device};
use crate::order::{
    keyed, lemma_integers_keyed, lemma_pair_keyed, lemma_sorted_is, lemma_triple_keyed, lists, ordered, sort_items,
    sorted,
};
use crate::scene::{
    bound_devices, call_devices, gpu_keys, gpu_process, lemma_groups_placed, lemma_projected_entry, lists_devices,
    nvtx_keys, nvtx_tid, placeable, projected_entries, projected_tid, range_devices, range_group, range_on_track,
    range_placed, EmitInput, Plan, Scene,
};
use crate::seqs::{concat, lemma_concat_entry};
use crate::slices::{make_row, numbered_label, plain_row};
use crate::text::{copied, decimal};
use crate::tracks::{number_of, Packing};
use std::collections::BTreeSet;
use vstd::prelude::*;

verus! {

/// A range as it is drawn on a track. `projected` is 1 where the track shows kernel
/// envelopes, and 0 where it shows the range itself.
#[derive(Clone, Copy)]
pub struct TrackRange {
    pub pid: i64,
    pub tid: i64,
    pub start: i64,
    pub end: i64,
    pub range: usize,
    pub device: i64,
    pub projected: i64,
}

/// A range on the track of its thread under a device.
pub open spec fn range_on(s: Scene, r: int, device: i64) -> TrackRange {
    let range = s.nvtx[r];
    TrackRange {
        pid: gpu_process(s, range.pid, device),
        tid: nvtx_tid(s, range_group(s, r, device)),
        start: range.start,
        end: range.end,
        range: r as usize,
        device,
        projected: 0,
    }
}

/// The kernel envelope of a range on a projected track.
pub open spec fn envelope_on(s: Scene, r: int, device: i64) -> TrackRange {
    let bounds = s.nvtx[r].kernel_bounds@[device];
    TrackRange {
        pid: gpu_process(s, s.nvtx[r].pid, device),
        tid: projected_tid(s, r, device),
        start: bounds.0,
        end: bounds.1,
        range: r as usize,
        device,
        projected: 1,
    }
}

/// A range on all of its tracks.
pub open spec fn track_ranges(s: Scene, r: int) -> Seq<TrackRange> {
    let devices = ordered(range_devices(s, r));
    let projected = ordered(bound_devices(s, r));
    Seq::new(devices.len(), |j: int| range_on(s, r, devices[j])) + Seq::new(
        projected.len(),
        |j: int| envelope_on(s, r, projected[j]),
    )
}

pub open spec fn all_track_ranges(s: Scene) -> Seq<TrackRange> {
    concat(s.nvtx.len() as int, |r: int| track_ranges(s, r))
}

/// The track and the instant at which a range begins.
pub open spec fn begin_spot(d: TrackRange) -> (i64, i64, i64) {
    (d.pid, d.tid, d.start)
}

/// Where the ranges that take time begin.
pub open spec fn begins(list: Seq<TrackRange>) -> Set<(i64, i64, i64)> {
    Set::new(
        |k: (i64, i64, i64)|
            exists|i: int| 0 <= i < list.len() && (#[trigger] list[i]).start != list[i].end && begin_spot(list[i]) == k,
    )
}

/// One end of a range on a track, as a key that sorts: process, track and instant;
/// the order at one instant, the other end, and the range; the device, whether the
/// track shows kernel envelopes, and 0 for the begin or 1 for the end.
///
/// At one instant ranges end, inner ones first, and then ranges begin, outer ones
/// first; of ranges that coincide, the one that began last ends first. Both ends of a
/// range that takes no time stand together: after the begins if other ranges begin
/// then, so that it is inside them, and otherwise before the ends.
pub type Mark = ((i64, i64, i64), (i64, i128, i128), (i128, i64, i64));

/// The order of a begin at its instant, and of both ends of a range that takes no time.
pub open spec fn begin_order(d: TrackRange, spots: Set<(i64, i64, i64)>) -> i64 {
    if d.start != d.end {
        2
    } else if spots.contains(begin_spot(d)) {
        3
    } else {
        0
    }
}

pub open spec fn opening(d: TrackRange, spots: Set<(i64, i64, i64)>) -> Mark {
    (
        (d.pid, d.tid, d.start),
        (begin_order(d, spots), (-d.end) as i128, d.range as i128),
        (d.device as i128, d.projected, 0),
    )
}

pub open spec fn closing(d: TrackRange, spots: Set<(i64, i64, i64)>) -> Mark {
    if d.start != d.end {
        (
            (d.pid, d.tid, d.end),
            (1, (-d.start) as i128, (-d.range) as i128),
            ((-d.device) as i128, d.projected, 1),
        )
    } else {
        (
            (d.pid, d.tid, d.end),
            (begin_order(d, spots), (-d.start) as i128, d.range as i128),
            (d.device as i128, d.projected, 1),
        )
    }
}

/// Both ends of a range on a track.
pub open spec fn both_ends(d: TrackRange, spots: Set<(i64, i64, i64)>) -> Seq<Mark> {
    seq![opening(d, spots), closing(d, spots)]
}

/// The ends of all ranges on all tracks.
pub open spec fn all_marks(s: Scene) -> Seq<Mark> {
    let list = all_track_ranges(s);
    concat(list.len() as int, |i: int| both_ends(list[i], begins(list)))
}

/// The range, the device and the kind of track that a mark belongs to.
pub open spec fn owner(m: Mark) -> (int, int, int) {
    if m.1.0 == 1 {
        (-m.1.2, -m.2.0, m.2.1 as int)
    } else {
        (m.1.2 as int, m.2.0 as int, m.2.1 as int)
    }
}

/// The mark begins a range.
pub open spec fn opens(m: Mark) -> bool {
    m.2.2 == 0
}

fn mark_ends(d: &TrackRange, spots: &BTreeSet<(i64, i64, i64)>) -> (marks: Vec<Mark>)
    ensures
        marks@ == both_ends(*d, spots@),
{
    proof {
        lemma_integers_keyed();
        lemma_triple_keyed::<i64, i64, i64>();
    }
    let outer_first: i128 = -(d.end as i128);
    let inner_first: i128 = -(d.start as i128);
    let range: i128 = d.range as i128;
    let device: i128 = d.device as i128;
    let last_first: i128 = -range;
    let device_last_first: i128 = -device;
    if d.start != d.end {
        vec![
            ((d.pid, d.tid, d.start), (2i64, outer_first, range), (device, d.projected, 0i64)),
            ((d.pid, d.tid, d.end), (1i64, inner_first, last_first), (device_last_first, d.projected, 1i64)),
        ]
    } else {
        let order: i64 = if spots.contains(&(d.pid, d.tid, d.start)) {
            3
        } else {
            0
        };
        vec![
            ((d.pid, d.tid, d.start), (order, outer_first, range), (device, d.projected, 0i64)),
            ((d.pid, d.tid, d.end), (order, inner_first, range), (device, d.projected, 1i64)),
        ]
    }
}

pub open spec fn range_args(s: Scene, r: int, device: i64) -> Seq<ArgView> {
    seq![
        arg("sourcePid"@, ValueView::Int(s.nvtx[r].pid)),
        arg("sourceTid"@, ValueView::Int(s.nvtx[r].tid)),
        arg("deviceId"@, ValueView::Int(device)),
    ]
}

/// The begin or end event of one end of a range.
pub open spec fn mark_event(s: Scene, m: Mark) -> EventView {
    let r = owner(m).0;
    EventView {
        name: s.nvtx[r].name@,
        ph: if opens(m) {
            "B"@
        } else {
            "E"@
        },
        cat: if m.2.1 == 1 {
            "nvtx-kernel"@
        } else {
            "nvtx"@
        },
        ts_ns: elapsed(m.0.2 as int, s.origin_ns as int),
        dur_ns: None,
        tid: m.0.1,
        pid: m.0.0,
        args: range_args(s, r, owner(m).1 as i64),
        id: None,
        bp: None,
    }
}

/// The begin and end events of all ranges, sorted.
pub open spec fn range_events(s: Scene) -> Seq<EventView> {
    let marks = sorted(all_marks(s));
    Seq::new(marks.len(), |i: int| mark_event(s, marks[i]))
}

fn make_range_args(input: &EmitInput<'_>, r: usize, device: i64) -> (args: Vec<Arg>)
    requires
        r < input.nvtx@.len(),
    ensures
        arg_views(args@) == range_args(input@, r as int, device),
{
    let args = vec![
        int_arg("sourcePid", input.nvtx[r].pid),
        int_arg("sourceTid", input.nvtx[r].tid),
        int_arg("deviceId", device),
    ];
    assert(arg_views(args@) =~= range_args(input@, r as int, device));
    args
}

/// The range and the device of a mark are there.
spec fn refers(s: Scene, m: Mark) -> bool {
    0 <= owner(m).0 < s.nvtx.len() && i64::MIN <= owner(m).1 <= i64::MAX
}

fn draw_mark(input: &EmitInput<'_>, m: &Mark) -> (event: TraceEvent)
    requires
        refers(input@, *m),
    ensures
        event@ == mark_event(input@, *m),
{
    let _range_count: usize = input.nvtx.len();
    let (r, device): (usize, i64) = if m.1.0 == 1 {
        ((-m.1.2) as usize, (-m.2.0) as i64)
    } else {
        (m.1.2 as usize, m.2.0 as i64)
    };
    TraceEvent {
        name: copied(input.nvtx[r].name.as_str()),
        ph: if m.2.2 == 0 {
            "B"
        } else {
            "E"
        },
        cat: if m.2.1 == 1 {
            "nvtx-kernel"
        } else {
            "nvtx"
        },
        ts_ns: nanos_between(m.0.2, input.origin_ns),
        dur_ns: None,
        tid: m.0.1,
        pid: m.0.0,
        args: make_range_args(input, r, device),
        id: None,
        bp: None,
    }
}

pub proof fn lemma_mark_keyed()
    ensures
        keyed::<Mark>(),
{
    lemma_integers_keyed();
    lemma_triple_keyed::<i64, i64, i64>();
    lemma_triple_keyed::<i64, i128, i128>();
    lemma_triple_keyed::<i128, i64, i64>();
    lemma_triple_keyed::<(i64, i64, i64), (i64, i128, i128), (i128, i64, i64)>();
}

proof fn lemma_plan_ranges_placed(plan: Plan, s: Scene)
    requires
        plan.covers(s),
        placeable(s),
    ensures
        forall|r: int, d: i64|
            0 <= r < s.nvtx.len() && #[trigger] range_devices(s, r).contains(d) ==> gpu_keys(s).contains(
                (s.nvtx[r].pid, d),
            ),
        forall|r: int, d: i64|
            0 <= r < s.nvtx.len() && #[trigger] bound_devices(s, r).contains(d) ==> gpu_keys(s).contains(
                (s.nvtx[r].pid, d),
            ),
{
    assert forall|c: int| 0 <= c < s.runtime.len() implies lists(
        #[trigger] ordered(call_devices(s, c)),
        call_devices(s, c),
    ) by {
        assert(lists_devices(plan.launch.call_devices@[c]@, call_devices(s, c)));
    }
    assert forall|r: int| 0 <= r < s.nvtx.len() implies lists(
        #[trigger] ordered(bound_devices(s, r)),
        bound_devices(s, r),
    ) by {
        assert(lists_devices(plan.ranges.bound_devices@[r]@, bound_devices(s, r)));
    }
    lemma_groups_placed(s);
    assert forall|r: int, d: i64|
        0 <= r < s.nvtx.len() && #[trigger] bound_devices(s, r).contains(d) implies gpu_keys(s).contains(
        (s.nvtx[r].pid, d),
    ) by {
        assert(range_placed(s, r));
    }
}

/// Lists a range on all of its tracks.
fn list_range(input: &EmitInput<'_>, plan: &Plan, r: usize) -> (list: Vec<TrackRange>)
    requires
        plan.covers(input@),
        placeable(input@),
        r < input.nvtx@.len(),
    ensures
        list@ == track_ranges(input@, r as int),
{
    let ghost s = input@;
    let range = &input.nvtx[r];
    let devices = &plan.ranges.range_devices[r];
    let projected = &plan.ranges.bound_devices[r];
    let ghost all = track_ranges(s, r as int);
    proof {
        lemma_integers_keyed();
        lemma_pair_keyed();
        lemma_triple_keyed::<i64, i64, i64>();
        lemma_plan_ranges_placed(*plan, s);
        assert(lists_devices(devices@, range_devices(s, r as int)));
        assert(lists_devices(projected@, bound_devices(s, r as int)));
    }
    let mut list: Vec<TrackRange> = Vec::new();
    for j in 0..devices.len()
        invariant
            keyed::<(i64, i64)>(),
            keyed::<(i64, i64, i64)>(),
            s == input@,
            plan.covers(s),
            r < s.nvtx.len(),
            *range == s.nvtx[r as int],
            lists_devices(devices@, range_devices(s, r as int)),
            forall|r: int, d: i64|
                0 <= r < s.nvtx.len() && #[trigger] range_devices(s, r).contains(d) ==> gpu_keys(s).contains(
                    (s.nvtx[r].pid, d),
                ),
            all == track_ranges(s, r as int),
            list@ == all.take(j as int),
    {
        let device: i64 = devices[j];
        let key = (range.pid, device, range.tid);
        proof {
            assert(devices@.to_set().contains(device));
            assert(range_devices(s, r as int).contains(device));
            assert(plan.devices.processes@.contains_key((range.pid, device)));
            assert(range_on_track(s, r as int, key));
            assert(nvtx_keys(s).contains(key));
            assert(plan.ranges.tracks@.contains_key(key));
        }
        let pid: i64 = number_of(&plan.devices.processes, (range.pid, device));
        let tid: i64 = number_of(&plan.ranges.tracks, key);
        list.push(TrackRange { pid, tid, start: range.start, end: range.end, range: r, device, projected: 0 });
        assert(list@ =~= all.take(j + 1));
    }
    for j in 0..projected.len()
        invariant
            keyed::<i64>(),
            keyed::<(i64, i64)>(),
            keyed::<(i64, i64, i64)>(),
            s == input@,
            plan.covers(s),
            r < s.nvtx.len(),
            *range == s.nvtx[r as int],
            lists_devices(devices@, range_devices(s, r as int)),
            lists_devices(projected@, bound_devices(s, r as int)),
            forall|r: int, d: i64|
                0 <= r < s.nvtx.len() && #[trigger] bound_devices(s, r).contains(d) ==> gpu_keys(s).contains(
                    (s.nvtx[r].pid, d),
                ),
            all == track_ranges(s, r as int),
            list@ == all.take(devices@.len() + j),
    {
        let device: i64 = projected[j];
        let key = (range.pid, device, range.tid);
        proof {
            assert(projected@.to_set().contains(device));
            assert(bound_devices(s, r as int).contains(device));
            assert(plan.devices.processes@.contains_key((range.pid, device)));
            lemma_projected_entry(s, r as int, device);
        }
        let pid: i64 = number_of(&plan.devices.processes, (range.pid, device));
        let tid: i64 = plan.ranges.projected.track(
            key,
            r,
            Ghost(Packing::Nested),
            Ghost(projected_entries(s)),
            Ghost(1_000_000_000),
        );
        let (start, end): (i64, i64) = match range.kernel_bounds.get(&device) {
            Some(bounds) => *bounds,
            None => (0, 0),
        };
        list.push(TrackRange { pid, tid, start, end, range: r, device, projected: 1 });
        assert(list@ =~= all.take(devices@.len() + j + 1));
    }
    assert(list@ =~= all);
    list
}

/// Collects where the ranges that take time begin.
fn collect_begins(list: &Vec<TrackRange>) -> (spots: BTreeSet<(i64, i64, i64)>)
    ensures
        spots@ == begins(list@),
{
    proof {
        lemma_integers_keyed();
        lemma_triple_keyed::<i64, i64, i64>();
    }
    let mut spots: BTreeSet<(i64, i64, i64)> = BTreeSet::new();
    assert(spots@ =~= begins(list@.take(0)));
    for i in 0..list.len()
        invariant
            keyed::<(i64, i64, i64)>(),
            spots@ == begins(list@.take(i as int)),
    {
        if list[i].start != list[i].end {
            spots.insert((list[i].pid, list[i].tid, list[i].start));
        }
        proof {
            lemma_begins_step(list@, i as int);
        }
    }
    assert(list@.take(list@.len() as int) =~= list@);
    spots
}

proof fn lemma_begins_step(list: Seq<TrackRange>, i: int)
    requires
        0 <= i < list.len(),
    ensures
        begins(list.take(i + 1)) == (if list[i].start != list[i].end {
            begins(list.take(i)).insert(begin_spot(list[i]))
        } else {
            begins(list.take(i))
        }),
{
    let a = list.take(i);
    let b = list.take(i + 1);
    let next = if list[i].start != list[i].end {
        begins(a).insert(begin_spot(list[i]))
    } else {
        begins(a)
    };
    assert forall|k: (i64, i64, i64)| #[trigger] begins(b).contains(k) <==> next.contains(k) by {
        if begins(b).contains(k) {
            let x = choose|x: int| 0 <= x < b.len() && (#[trigger] b[x]).start != b[x].end && begin_spot(b[x]) == k;
            if x < i {
                assert(a[x] == b[x]);
            }
        }
        if begins(a).contains(k) {
            let x = choose|x: int| 0 <= x < a.len() && (#[trigger] a[x]).start != a[x].end && begin_spot(a[x]) == k;
            assert(b[x] == a[x]);
        }
        assert(b[i] == list[i]);
    }
    assert(begins(b) =~= next);
}

/// A range on a track is one of the ranges.
proof fn lemma_track_range_refers(s: Scene, i: int)
    requires
        0 <= i < all_track_ranges(s).len(),
        s.nvtx.len() <= usize::MAX,
    ensures
        all_track_ranges(s)[i].range < s.nvtx.len(),
{
    let place = lemma_concat_entry(s.nvtx.len() as int, |r: int| track_ranges(s, r), i);
    assert(0 <= place.0 < s.nvtx.len());
}

proof fn lemma_mark_refers(s: Scene, a: int)
    requires
        0 <= a < all_marks(s).len(),
        s.nvtx.len() <= usize::MAX,
    ensures
        refers(s, all_marks(s)[a]),
{
    let list = all_track_ranges(s);
    let place = lemma_concat_entry(list.len() as int, |i: int| both_ends(list[i], begins(list)), a);
    lemma_track_range_refers(s, place.0);
    assert(place.1 == 0 || place.1 == 1);
}

/// Draws the ranges as sorted begin and end events.
pub(crate) fn draw_ranges(input: &EmitInput<'_>, plan: &Plan) -> (events: Vec<TraceEvent>)
    requires
        plan.covers(input@),
        placeable(input@),
    ensures
        event_views(events@) == range_events(input@),
{
    let ghost s = input@;
    let _range_count: usize = input.nvtx.len();
    let mut list: Vec<TrackRange> = Vec::new();
    for r in 0..input.nvtx.len()
        invariant
            s == input@,
            plan.covers(s),
            placeable(s),
            list@ == concat(r as int, |r: int| track_ranges(s, r)),
    {
        let mut some = list_range(input, plan, r);
        list.append(&mut some);
    }
    let spots = collect_begins(&list);
    let mut marks: Vec<Mark> = Vec::new();
    let ghost f = |i: int| both_ends(list@[i], begins(list@));
    for i in 0..list.len()
        invariant
            spots@ == begins(list@),
            f == (|i: int| both_ends(list@[i], begins(list@))),
            marks@ == concat(i as int, f),
    {
        let mut some = mark_ends(&list[i], &spots);
        marks.append(&mut some);
    }
    let placed = sort_items(&marks);
    proof {
        assert(list@ == all_track_ranges(s));
        assert(marks@ == all_marks(s));
        lemma_mark_keyed();
        lemma_sorted_is(placed@, marks@);
        assert forall|i: int| 0 <= i < placed@.len() implies refers(s, #[trigger] placed@[i]) by {
            placed@.to_multiset_ensures();
            marks@.to_multiset_ensures();
            assert(placed@.contains(placed@[i]));
            assert(placed@.to_multiset().count(placed@[i]) > 0);
            assert(marks@.contains(placed@[i]));
            let j = choose|j: int| 0 <= j < marks@.len() && marks@[j] == placed@[i];
            lemma_mark_refers(s, j);
        }
    }
    let mut events: Vec<TraceEvent> = Vec::new();
    for i in 0..placed.len()
        invariant
            s == input@,
            forall|i: int| 0 <= i < placed@.len() ==> refers(s, #[trigger] placed@[i]),
            events@.len() == i,
            forall|k: int| 0 <= k < i ==> (#[trigger] events@[k])@ == mark_event(s, placed@[k]),
    {
        events.push(draw_mark(input, &placed[i]));
    }
    assert(event_views(events@) =~= range_events(s));
    events
}

/// The row of a range under a device.
pub open spec fn range_row(s: Scene, r: int, device: i64) -> RowView {
    let range = s.nvtx[r];
    plain_row(
        s,
        "nvtx"@,
        "nvtx"@,
        range.name@,
        range.start,
        range.end,
        device_label(device, range.pid),
        "NVTX Thread "@ + decimal(range.tid as int),
        range_args(s, r, device),
    )
}

/// The row of the kernel envelope of a range under a device.
pub open spec fn envelope_row(s: Scene, r: int, device: i64) -> RowView {
    let range = s.nvtx[r];
    let bounds = range.kernel_bounds@[device];
    plain_row(
        s,
        "nvtx_kernel"@,
        "nvtx-kernel"@,
        range.name@,
        bounds.0,
        bounds.1,
        device_label(device, range.pid),
        "NVTX Kernel Thread "@ + decimal(range.tid as int),
        range_args(s, r, device),
    )
}

pub open spec fn range_rows(s: Scene, r: int) -> Seq<RowView> {
    let devices = ordered(range_devices(s, r));
    let projected = ordered(bound_devices(s, r));
    Seq::new(devices.len(), |j: int| range_row(s, r, devices[j])) + Seq::new(
        projected.len(),
        |j: int| envelope_row(s, r, projected[j]),
    )
}

fn range_to_rows(input: &EmitInput<'_>, plan: &Plan, r: usize) -> (rows: Vec<TraceRow>)
    requires
        plan.covers(input@),
        r < input.nvtx@.len(),
    ensures
        row_views(rows@) == range_rows(input@, r as int),
{
    let ghost s = input@;
    let range = &input.nvtx[r];
    let devices = &plan.ranges.range_devices[r];
    let projected = &plan.ranges.bound_devices[r];
    proof {
        lemma_integers_keyed();
        assert(lists_devices(devices@, range_devices(s, r as int)));
        assert(lists_devices(projected@, bound_devices(s, r as int)));
    }
    let mut rows: Vec<TraceRow> = Vec::new();
    for j in 0..devices.len()
        invariant
            s == input@,
            r < s.nvtx.len(),
            *range == s.nvtx[r as int],
            rows@.len() == j,
            forall|k: int| 0 <= k < j ==> (#[trigger] rows@[k])@ == range_row(s, r as int, devices@[k]),
    {
        rows.push(
            make_row(
                input,
                copied("nvtx"),
                "nvtx",
                copied(range.name.as_str()),
                range.start,
                range.end,
                label_device(devices[j], range.pid),
                numbered_label("NVTX Thread ", range.tid),
                make_range_args(input, r, devices[j]),
            ),
        );
    }
    let mut more: Vec<TraceRow> = Vec::new();
    for j in 0..projected.len()
        invariant
            keyed::<i64>(),
            s == input@,
            r < s.nvtx.len(),
            *range == s.nvtx[r as int],
            lists_devices(projected@, bound_devices(s, r as int)),
            more@.len() == j,
            forall|k: int| 0 <= k < j ==> (#[trigger] more@[k])@ == envelope_row(s, r as int, projected@[k]),
    {
        let device: i64 = projected[j];
        proof {
            assert(projected@.to_set().contains(device));
            assert(bound_devices(s, r as int).contains(device));
        }
        let (start, end): (i64, i64) = match range.kernel_bounds.get(&device) {
            Some(bounds) => *bounds,
            None => (0, 0),
        };
        more.push(
            make_row(
                input,
                copied("nvtx_kernel"),
                "nvtx-kernel",
                copied(range.name.as_str()),
                start,
                end,
                label_device(device, range.pid),
                numbered_label("NVTX Kernel Thread ", range.tid),
                make_range_args(input, r, device),
            ),
        );
    }
    assert(row_views(rows@) =~= Seq::new(devices@.len(), |j: int| range_row(s, r as int, devices@[j])));
    assert(row_views(more@) =~= Seq::new(projected@.len(), |j: int| envelope_row(s, r as int, projected@[j])));
    append_rows(&mut rows, more);
    rows
}

/// The rows of all ranges.
pub(crate) fn ranges_to_rows(input: &EmitInput<'_>, plan: &Plan) -> (rows: Vec<TraceRow>)
    requires
        plan.covers(input@),
    ensures
        row_views(rows@) == concat(input@.nvtx.len() as int, |r: int| range_rows(input@, r)),
{
    let ghost s = input@;
    let ghost f = |r: int| range_rows(s, r);
    let mut rows: Vec<TraceRow> = Vec::new();
    assert(row_views(rows@) =~= concat(0, f));
    for r in 0..input.nvtx.len()
        invariant
            s == input@,
            plan.covers(s),
            f == (|r: int| range_rows(s, r)),
            row_views(rows@) == concat(r as int, f),
    {
        append_rows(&mut rows, range_to_rows(input, plan, r));
    }
    rows
}

} // verus!
