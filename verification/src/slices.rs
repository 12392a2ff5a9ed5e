//! The slices, arrows and table rows of calls, kernels and copies.
use crate::devices::{
    copy_direction, copy_track, copy_track_rank, direction_slug, direction_text, is_pcie, is_pcie_copy, memory_kind,
    memory_text, slug,
};
use crate::event::{
    append_events, append_rows, arg, arg_views, arrow, copied_args, copied_option, count_arg, event_views, int_arg,
    ints_arg, make_arrow, make_slice, maybe_text_arg, micros_arg, rate_arg, row_views, slice, text_arg, texts_arg,
    Arg, ArgView, EventView, RowView, Spot, TraceEvent, TraceRow, ValueView,
};
use crate::flow_ids::{flow_id_at, flow_number};
use crate::model::{
    elapsed, flow_end_ns, flow_origin, flow_start_ns, flow_target, larger, nanos_between, pid_of, source_pid,
    source_tid, tid_of, Kernel, Memcpy, RuntimeCall, CORE_LAUNCH_FLOW_ID_BASE, LAUNCH_FLOW_ID_BASE,
    MEMCPY_FLOW_ID_BASE, PCIE_USAGE_FLOW_ID_BASE,
};
use crate::naming::{device_label, label_device};
use crate::order::{keyed, lemma_integers_keyed, lemma_pair_keyed, lemma_quad_keyed, lemma_triple_keyed, ordered};
use crate::scene::{
    call_devices, call_entries, call_placed, call_tid, copy_launched_on, copy_on_track, copy_placed, copy_stream_key,
    copy_stream_tid, copy_tid, copy_track_keys, core_tid, gpu_keys, gpu_process, kernel_entries, kernel_launched_on,
    kernel_placed, kernel_stream_key, kernel_stream_tid, lemma_call_entry, lemma_copies_placed,
    lemma_kernel_device_placed, lemma_not_empty, linked_devices, lists_devices, placeable, primary, shown,
    stream_entries, visible, EmitInput, Plan, Scene,
};
use crate::seqs::concat;
use crate::text::{append_decimal, copied, decimal, opt_text, texts};
use crate::tracks::{has_item, number_of, Packing};
use vstd::prelude::*;
use vstd::string::StringExecFns;

verus! {

/// A row of an interval, with nothing but its place and its arguments.
pub open spec fn plain_row(
    s: Scene,
    event_type: Seq<char>,
    cat: Seq<char>,
    name: Seq<char>,
    start: i64,
    end: i64,
    pid: Seq<char>,
    tid: Seq<char>,
    args: Seq<ArgView>,
) -> RowView {
    RowView {
        report: s.report,
        event_type,
        cat,
        name,
        ph: "X"@,
        ts_ns: elapsed(start as int, s.origin_ns as int),
        dur_ns: Some(elapsed(end as int, start as int)),
        aligned_ns: elapsed(start as int, s.anchor_ns as int),
        pid,
        tid,
        args,
        event_id: None,
        launch_event_id: None,
        stream_id: None,
        correlation_id: None,
        stream_sequence: None,
        depends_on_event_id: None,
        dependency_type: None,
        device_id: None,
        metric_id: None,
        metric_value: None,
        metric_unit: None,
    }
}

pub(crate) fn make_row(
    input: &EmitInput<'_>,
    event_type: String,
    cat: &'static str,
    name: String,
    start: i64,
    end: i64,
    pid: String,
    tid: String,
    args: Vec<Arg>,
) -> (row: TraceRow)
    ensures
        row@ == plain_row(input@, event_type@, cat@, name@, start, end, pid@, tid@, arg_views(args@)),
{
    TraceRow {
        report: copied(input.report),
        event_type,
        cat,
        name,
        ph: "X",
        ts_ns: nanos_between(start, input.origin_ns),
        dur_ns: Some(nanos_between(end, start)),
        aligned_ns: nanos_between(start, input.anchor_ns),
        pid,
        tid,
        args,
        event_id: None,
        launch_event_id: None,
        stream_id: None,
        correlation_id: None,
        stream_sequence: None,
        depends_on_event_id: None,
        dependency_type: None,
        device_id: None,
        metric_id: None,
        metric_value: None,
        metric_unit: None,
    }
}

/// A label that ends in a number.
pub(crate) fn numbered_label(text: &str, n: i64) -> (label: String)
    ensures
        label@ == text@ + decimal(n as int),
{
    let mut label = copied(text);
    append_decimal(&mut label, n);
    label
}

/// The identifier text of a visible call.
pub open spec fn id_text(call: RuntimeCall) -> Seq<char> {
    call.event_id->0@
}

pub open spec fn api_args(call: RuntimeCall, device: i64) -> Seq<ArgView> {
    seq![
        arg("correlationId"@, ValueView::Int(call.correlation)),
        arg("eventId"@, ValueView::Text(id_text(call))),
        arg("cpuStartNs"@, ValueView::Int(call.start)),
        arg("cpuEndNs"@, ValueView::Int(call.end)),
        arg("cpuDurationNs"@, ValueView::Int(elapsed(call.end as int, call.start as int))),
        arg("deviceId"@, ValueView::Int(device)),
    ]
}

/// The slice of a call under a device.
pub open spec fn api_event(s: Scene, c: int, device: i64) -> EventView {
    let call = s.runtime[c];
    slice(
        call.name@,
        "cuda_api"@,
        elapsed(call.start as int, s.origin_ns as int),
        elapsed(call.end as int, call.start as int),
        call_tid(s, c, device),
        gpu_process(s, pid_of(call.global_tid), device),
        api_args(call, device),
    )
}

/// The row of a call under a device.
pub open spec fn api_row(s: Scene, c: int, device: i64) -> RowView {
    let call = s.runtime[c];
    let pid = pid_of(call.global_tid);
    RowView {
        event_id: Some(id_text(call)),
        correlation_id: Some(call.correlation as u32),
        ..plain_row(
            s,
            "cuda_api"@,
            "cuda_api"@,
            call.name@,
            call.start,
            call.end,
            device_label(device, pid),
            "CUDA API Thread "@ + decimal(tid_of(call.global_tid) as int),
            api_args(call, device),
        )
    }
}

/// The slices of a call: one under each of its devices, if it is visible.
pub open spec fn call_events(s: Scene, c: int) -> Seq<EventView> {
    let devices = ordered(call_devices(s, c));
    if visible(s.runtime[c]) {
        Seq::new(devices.len(), |j: int| api_event(s, c, devices[j]))
    } else {
        Seq::empty()
    }
}

pub open spec fn call_rows(s: Scene, c: int) -> Seq<RowView> {
    let devices = ordered(call_devices(s, c));
    if visible(s.runtime[c]) {
        Seq::new(devices.len(), |j: int| api_row(s, c, devices[j]))
    } else {
        Seq::empty()
    }
}

fn make_api_args(call: &RuntimeCall, id: &str, device: i64) -> (args: Vec<Arg>)
    requires
        visible(*call),
        id@ == id_text(*call),
    ensures
        arg_views(args@) == api_args(*call, device),
{
    let args = vec![
        int_arg("correlationId", call.correlation),
        text_arg("eventId", id),
        int_arg("cpuStartNs", call.start),
        int_arg("cpuEndNs", call.end),
        int_arg("cpuDurationNs", nanos_between(call.end, call.start)),
        int_arg("deviceId", device),
    ];
    assert(arg_views(args@) =~= api_args(*call, device));
    args
}

/// Draws a visible call under one of its devices.
fn draw_call(input: &EmitInput<'_>, plan: &Plan, c: usize, id: &str, device: i64) -> (drawn: (TraceEvent, TraceRow))
    requires
        plan.covers(input@),
        placeable(input@),
        c < input.runtime@.len(),
        visible(input.runtime@[c as int]),
        id@ == id_text(input.runtime@[c as int]),
        call_devices(input@, c as int).contains(device),
    ensures
        drawn.0@ == api_event(input@, c as int, device),
        drawn.1@ == api_row(input@, c as int, device),
{
    let ghost s = input@;
    let call = &input.runtime[c];
    let source: i64 = source_pid(call.global_tid);
    proof {
        lemma_pair_keyed();
        assert(call_placed(s, c as int));
        assert(plan.devices.processes@.contains_key((source, device)));
    }
    let tid: i64 = call_track(plan, input, c, device);
    let pid: i64 = number_of(&plan.devices.processes, (source, device));
    let args = make_api_args(call, id, device);
    let event = make_slice(
        call.name.as_str(),
        "cuda_api",
        nanos_between(call.start, input.origin_ns),
        nanos_between(call.end, call.start),
        tid,
        pid,
        copied_args(&args),
    );
    let row = TraceRow {
        event_id: Some(copied(id)),
        correlation_id: Some(call.correlation as u32),
        ..make_row(
            input,
            copied("cuda_api"),
            "cuda_api",
            copied(call.name.as_str()),
            call.start,
            call.end,
            label_device(device, source),
            numbered_label("CUDA API Thread ", source_tid(call.global_tid)),
            args,
        )
    };
    (event, row)
}

/// Draws the visible calls.
pub(crate) fn draw_calls(input: &EmitInput<'_>, plan: &Plan) -> (drawn: (Vec<TraceEvent>, Vec<TraceRow>))
    requires
        plan.covers(input@),
        placeable(input@),
    ensures
        event_views(drawn.0@) == concat(input@.runtime.len() as int, |c: int| call_events(input@, c)),
        row_views(drawn.1@) == concat(input@.runtime.len() as int, |c: int| call_rows(input@, c)),
{
    let ghost s = input@;
    let mut events: Vec<TraceEvent> = Vec::new();
    let mut rows: Vec<TraceRow> = Vec::new();
    let ghost f = |c: int| call_events(s, c);
    let ghost g = |c: int| call_rows(s, c);
    assert(event_views(events@) =~= concat(0, f));
    assert(row_views(rows@) =~= concat(0, g));
    for c in 0..input.runtime.len()
        invariant
            s == input@,
            plan.covers(s),
            placeable(s),
            f == (|c: int| call_events(s, c)),
            g == (|c: int| call_rows(s, c)),
            event_views(events@) == concat(c as int, f),
            row_views(rows@) == concat(c as int, g),
    {
        let mut some_events: Vec<TraceEvent> = Vec::new();
        let mut some_rows: Vec<TraceRow> = Vec::new();
        if let Some(id) = &input.runtime[c].event_id {
            let devices = &plan.launch.call_devices[c];
            assert(lists_devices(devices@, call_devices(s, c as int)));
            for j in 0..devices.len()
                invariant
                    s == input@,
                    plan.covers(s),
                    placeable(s),
                    c < s.runtime.len(),
                    s.runtime[c as int].event_id == Some(*id),
                    lists_devices(devices@, call_devices(s, c as int)),
                    some_events@.len() == j,
                    some_rows@.len() == j,
                    forall|i: int| 0 <= i < j ==> (#[trigger] some_events@[i])@ == api_event(s, c as int, devices@[i]),
                    forall|i: int| 0 <= i < j ==> (#[trigger] some_rows@[i])@ == api_row(s, c as int, devices@[i]),
            {
                assert(devices@.to_set().contains(devices@[j as int]));
                let (event, row) = draw_call(input, plan, c, id.as_str(), devices[j]);
                some_events.push(event);
                some_rows.push(row);
            }
        }
        assert(event_views(some_events@) =~= call_events(s, c as int));
        assert(row_views(some_rows@) =~= call_rows(s, c as int));
        append_events(&mut events, some_events);
        append_rows(&mut rows, some_rows);
    }
    (events, rows)
}

/// The label of a hardware stream in rows.
pub open spec fn stream_text(context: i64, stream: i64) -> Seq<char> {
    "Context "@ + decimal(context as int) + " / Stream "@ + decimal(stream as int)
}

fn label_stream(context: i64, stream: i64) -> (label: String)
    ensures
        label@ == stream_text(context, stream),
{
    let mut label = numbered_label("Context ", context);
    label.append(" / Stream ");
    append_decimal(&mut label, stream);
    label
}

/// The identifier of the call that launched an activity.
pub open spec fn launch_id(s: Scene, launch: Option<usize>) -> Option<Seq<char>> {
    match launch {
        Some(c) => opt_text(s.runtime[c as int].event_id),
        None => None,
    }
}

/// The call that launched an activity, if any, can be referred to.
pub open spec fn launch_named(s: Scene, launch: Option<usize>) -> bool {
    launch matches Some(c) ==> visible(s.runtime[c as int])
}

fn copied_launch_id(input: &EmitInput<'_>, launch: Option<usize>) -> (id: Option<String>)
    requires
        launch matches Some(c) ==> c < input.runtime@.len(),
    ensures
        opt_text(id) == launch_id(input@, launch),
{
    match launch {
        Some(c) => copied_option(&input.runtime[c].event_id),
        None => None,
    }
}

pub open spec fn kernel_args(s: Scene, k: int) -> Seq<ArgView> {
    let kernel = s.kernels[k];
    seq![
        arg("correlationId"@, ValueView::Int(kernel.correlation)),
        arg("contextId"@, ValueView::Int(kernel.context)),
        arg("streamId"@, ValueView::Int(kernel.stream)),
        arg("streamSequence"@, ValueView::Count(kernel.sequence)),
        arg("eventId"@, ValueView::Text(kernel.event_id@)),
        arg("launchEventId"@, ValueView::MaybeText(launch_id(s, kernel.launch_call))),
        arg("gpuStartNs"@, ValueView::Int(kernel.start)),
        arg("gpuEndNs"@, ValueView::Int(kernel.end)),
        arg("gpuDurationNs"@, ValueView::Int(elapsed(kernel.end as int, kernel.start as int))),
        arg("sourceProcessId"@, ValueView::Int(pid_of(kernel.global_pid))),
        arg("deviceId"@, ValueView::Int(kernel.device)),
        arg("grid"@, ValueView::Ints(kernel.grid@)),
        arg("block"@, ValueView::Ints(kernel.block@)),
        arg("NVTXRegions"@, ValueView::Texts(texts(kernel.nvtx_regions@))),
    ]
}

pub open spec fn core_args(kernel: Kernel) -> Seq<ArgView> {
    seq![
        arg("deviceId"@, ValueView::Int(kernel.device)),
        arg("contextId"@, ValueView::Int(kernel.context)),
        arg("streamId"@, ValueView::Int(kernel.stream)),
        arg("correlationId"@, ValueView::Int(kernel.correlation)),
        arg("eventId"@, ValueView::Text(kernel.event_id@)),
    ]
}

pub open spec fn launch_args(kernel: Kernel, call: RuntimeCall) -> Seq<ArgView> {
    let delay = elapsed(kernel.start as int, call.end as int);
    seq![
        arg("from"@, ValueView::Text(id_text(call))),
        arg("to"@, ValueView::Text(kernel.event_id@)),
        arg("correlationId"@, ValueView::Int(kernel.correlation)),
        arg("deviceId"@, ValueView::Int(kernel.device)),
        arg("streamId"@, ValueView::Int(kernel.stream)),
        arg("cpuCallStartNs"@, ValueView::Int(call.start)),
        arg("cpuCallEndNs"@, ValueView::Int(call.end)),
        arg("gpuKernelStartNs"@, ValueView::Int(kernel.start)),
        arg("gpuKernelEndNs"@, ValueView::Int(kernel.end)),
        arg("launchLatencyUs"@, ValueView::Micros(larger(delay, 0))),
        arg("kernelStartMinusApiEndUs"@, ValueView::Micros(delay)),
    ]
}

pub open spec fn kernel_process(s: Scene, k: int) -> i64 {
    gpu_process(s, pid_of(s.kernels[k].global_pid), s.kernels[k].device)
}

/// The slice of a kernel on its hardware stream.
pub open spec fn stream_slice(s: Scene, k: int) -> EventView {
    let kernel = s.kernels[k];
    slice(
        kernel.name@,
        "cuda"@,
        elapsed(kernel.start as int, s.origin_ns as int),
        elapsed(kernel.end as int, kernel.start as int),
        kernel_stream_tid(s, k),
        kernel_process(s, k),
        kernel_args(s, k),
    )
}

/// The slice of a kernel on the core timeline of its device.
pub open spec fn core_slice(s: Scene, k: int) -> EventView {
    let kernel = s.kernels[k];
    slice(
        kernel.name@,
        "cuda_kernel_usage"@,
        elapsed(kernel.start as int, s.origin_ns as int),
        elapsed(kernel.end as int, kernel.start as int),
        core_tid(s, k),
        kernel_process(s, k),
        core_args(kernel),
    )
}

/// Where the arrows of an activity leave the slice of its call.
pub open spec fn launch_spot(s: Scene, c: int, device: i64, activity_start: i64, pid: i64) -> Spot {
    Spot {
        ts_ns: elapsed(flow_origin(s.runtime[c], activity_start) as int, s.origin_ns as int),
        tid: call_tid(s, c, device),
        pid,
    }
}

/// Where an arrow arrives in the slice of an activity.
pub open spec fn arrival_spot(s: Scene, start: i64, end: i64, tid: i64, pid: i64) -> Spot {
    Spot { ts_ns: elapsed(flow_target(start, end) as int, s.origin_ns as int), tid, pid }
}

/// The arrows from a call to the stream slice and to the core timeline slice of a
/// kernel that it launched.
pub open spec fn launch_arrows(s: Scene, k: int, c: int) -> Seq<EventView> {
    let kernel = s.kernels[k];
    let from = launch_spot(s, c, kernel.device, kernel.start, kernel_process(s, k));
    arrow(
        "cuda_kernel_launch"@,
        "cuda_launch_dependency"@,
        from,
        arrival_spot(s, kernel.start, kernel.end, kernel_stream_tid(s, k), kernel_process(s, k)),
        launch_args(kernel, s.runtime[c]),
        flow_number(s.report, LAUNCH_FLOW_ID_BASE, k),
    ) + arrow(
        "cuda_core_kernel_launch"@,
        "cuda_core_launch_dependency"@,
        from,
        arrival_spot(s, kernel.start, kernel.end, core_tid(s, k), kernel_process(s, k)),
        launch_args(kernel, s.runtime[c]).push(arg("targetTrack"@, ValueView::Text("CUDA Core Timeline"@))),
        flow_number(s.report, CORE_LAUNCH_FLOW_ID_BASE, k),
    )
}

/// Everything drawn for a kernel.
pub open spec fn kernel_events(s: Scene, k: int) -> Seq<EventView> {
    seq![stream_slice(s, k), core_slice(s, k)] + match s.kernels[k].launch_call {
        Some(c) => launch_arrows(s, k, c as int),
        None => Seq::empty(),
    }
}

pub open spec fn kernel_row(s: Scene, k: int) -> RowView {
    let kernel = s.kernels[k];
    RowView {
        event_id: Some(kernel.event_id@),
        launch_event_id: launch_id(s, kernel.launch_call),
        stream_id: Some(kernel.stream as u64),
        correlation_id: Some(kernel.correlation as u32),
        stream_sequence: Some(kernel.sequence),
        ..plain_row(
            s,
            "cuda_kernel"@,
            "cuda"@,
            kernel.name@,
            kernel.start,
            kernel.end,
            device_label(kernel.device, pid_of(kernel.global_pid)),
            stream_text(kernel.context, kernel.stream),
            kernel_args(s, k),
        )
    }
}

/// A call that launched an activity is shown under the activity's devices.
pub proof fn lemma_launch_devices(s: Scene)
    ensures
        forall|k: int|
            0 <= k < s.kernels.len() && (#[trigger] s.kernels[k]).launch_call is Some ==> call_devices(
                s,
                s.kernels[k].launch_call->0 as int,
            ).contains(s.kernels[k].device),
        forall|i: int, d: i64|
            0 <= i < s.memcpys.len() && s.memcpys[i].launch_call is Some && #[trigger] shown(s, i).contains(d)
                ==> call_devices(s, s.memcpys[i].launch_call->0 as int).contains(d),
{
    assert forall|k: int| 0 <= k < s.kernels.len() && (#[trigger] s.kernels[k]).launch_call is Some implies call_devices(
        s,
        s.kernels[k].launch_call->0 as int,
    ).contains(s.kernels[k].device) by {
        let c = s.kernels[k].launch_call->0 as int;
        let d = s.kernels[k].device;
        assert(kernel_launched_on(s, c, d, k));
        assert(linked_devices(s, c).contains(d));
        lemma_not_empty(linked_devices(s, c), d);
    }
    assert forall|i: int, d: i64|
        0 <= i < s.memcpys.len() && s.memcpys[i].launch_call is Some && #[trigger] shown(s, i).contains(
            d,
        ) implies call_devices(s, s.memcpys[i].launch_call->0 as int).contains(d) by {
        let c = s.memcpys[i].launch_call->0 as int;
        assert(copy_launched_on(s, c, d, i));
        assert(linked_devices(s, c).contains(d));
        lemma_not_empty(linked_devices(s, c), d);
    }
}

fn make_kernel_args(input: &EmitInput<'_>, k: usize) -> (args: Vec<Arg>)
    requires
        k < input.kernels@.len(),
        kernel_placed(input@, k as int),
    ensures
        arg_views(args@) == kernel_args(input@, k as int),
{
    let kernel = &input.kernels[k];
    let launch = copied_launch_id(input, kernel.launch_call);
    let args = vec![
        int_arg("correlationId", kernel.correlation),
        int_arg("contextId", kernel.context),
        int_arg("streamId", kernel.stream),
        count_arg("streamSequence", kernel.sequence),
        text_arg("eventId", kernel.event_id.as_str()),
        maybe_text_arg("launchEventId", &launch),
        int_arg("gpuStartNs", kernel.start),
        int_arg("gpuEndNs", kernel.end),
        int_arg("gpuDurationNs", nanos_between(kernel.end, kernel.start)),
        int_arg("sourceProcessId", source_pid(kernel.global_pid)),
        int_arg("deviceId", kernel.device),
        ints_arg("grid", kernel.grid.as_slice()),
        ints_arg("block", kernel.block.as_slice()),
        texts_arg("NVTXRegions", &kernel.nvtx_regions),
    ];
    assert(arg_views(args@) =~= kernel_args(input@, k as int));
    args
}

fn make_core_args(kernel: &Kernel) -> (args: Vec<Arg>)
    ensures
        arg_views(args@) == core_args(*kernel),
{
    let args = vec![
        int_arg("deviceId", kernel.device),
        int_arg("contextId", kernel.context),
        int_arg("streamId", kernel.stream),
        int_arg("correlationId", kernel.correlation),
        text_arg("eventId", kernel.event_id.as_str()),
    ];
    assert(arg_views(args@) =~= core_args(*kernel));
    args
}

fn make_launch_args(kernel: &Kernel, call: &RuntimeCall, id: &str) -> (args: Vec<Arg>)
    requires
        visible(*call),
        id@ == id_text(*call),
    ensures
        arg_views(args@) == launch_args(*kernel, *call),
{
    let delay: i64 = nanos_between(kernel.start, call.end);
    let latency: i64 = if delay >= 0 {
        delay
    } else {
        0
    };
    let args = vec![
        text_arg("from", id),
        text_arg("to", kernel.event_id.as_str()),
        int_arg("correlationId", kernel.correlation),
        int_arg("deviceId", kernel.device),
        int_arg("streamId", kernel.stream),
        int_arg("cpuCallStartNs", call.start),
        int_arg("cpuCallEndNs", call.end),
        int_arg("gpuKernelStartNs", kernel.start),
        int_arg("gpuKernelEndNs", kernel.end),
        micros_arg("launchLatencyUs", latency),
        micros_arg("kernelStartMinusApiEndUs", delay),
    ];
    assert(arg_views(args@) =~= launch_args(*kernel, *call));
    args
}

/// The track of a call under a device.
fn call_track(plan: &Plan, input: &EmitInput<'_>, c: usize, device: i64) -> (tid: i64)
    requires
        plan.covers(input@),
        c < input.runtime@.len(),
        call_devices(input@, c as int).contains(device),
    ensures
        tid == call_tid(input@, c as int, device),
{
    let call = &input.runtime[c];
    let key = (source_pid(call.global_tid), device, source_tid(call.global_tid));
    proof {
        let s = input@;
        lemma_integers_keyed();
        lemma_triple_keyed::<i64, i64, i64>();
        assert(lists_devices(plan.launch.call_devices@[c as int]@, call_devices(s, c as int)));
        lemma_call_entry(s, c as int, device);
    }
    plan.launch.calls.track(key, c, Ghost(Packing::Disjoint), Ghost(call_entries(input@)), Ghost(1_100_000_000))
}

/// The arrows to a kernel from the call that launched it.
fn draw_launch(
    input: &EmitInput<'_>,
    plan: &Plan,
    k: usize,
    c: usize,
    id: &str,
    stream_track: i64,
    core_track: i64,
    pid: i64,
) -> (events: Vec<TraceEvent>)
    requires
        plan.covers(input@),
        placeable(input@),
        k < input.kernels@.len(),
        input.kernels@[k as int].launch_call == Some(c),
        visible(input.runtime@[c as int]),
        id@ == id_text(input.runtime@[c as int]),
        stream_track == kernel_stream_tid(input@, k as int),
        core_track == core_tid(input@, k as int),
        pid == kernel_process(input@, k as int),
    ensures
        event_views(events@) == launch_arrows(input@, k as int, c as int),
{
    let ghost s = input@;
    let kernel = &input.kernels[k];
    proof {
        assert(kernel_placed(s, k as int));
        lemma_kernel_device_placed(s, k as int);
        lemma_launch_devices(s);
        assert(s.kernels[k as int].launch_call is Some);
    }
    let call = &input.runtime[c];
    let from = Spot {
        ts_ns: nanos_between(flow_start_ns(call, kernel.start), input.origin_ns),
        tid: call_track(plan, input, c, kernel.device),
        pid,
    };
    let arrival: i64 = nanos_between(flow_end_ns(kernel.start, kernel.end), input.origin_ns);
    let mut events = make_arrow(
        "cuda_kernel_launch",
        "cuda_launch_dependency",
        from,
        Spot { ts_ns: arrival, tid: stream_track, pid },
        make_launch_args(kernel, call, id),
        flow_id_at(plan.flow_space, LAUNCH_FLOW_ID_BASE, k, 0, Ghost(input@.report)),
    );
    let mut core_args = make_launch_args(kernel, call, id);
    let ghost before = arg_views(core_args@);
    core_args.push(text_arg("targetTrack", "CUDA Core Timeline"));
    assert(arg_views(core_args@) =~= before.push(arg("targetTrack"@, ValueView::Text("CUDA Core Timeline"@))));
    append_events(
        &mut events,
        make_arrow(
            "cuda_core_kernel_launch",
            "cuda_core_launch_dependency",
            from,
            Spot { ts_ns: arrival, tid: core_track, pid },
            core_args,
            flow_id_at(plan.flow_space, CORE_LAUNCH_FLOW_ID_BASE, k, 0, Ghost(input@.report)),
        ),
    );
    events
}

/// An activity refers to a call that has no identifier.
#[derive(Debug, Clone, Copy, PartialEq, Eq, Structural)]
pub enum EmitError {
    KernelLaunch,
    CopyLaunch,
}

pub open spec fn emit_error_text(e: EmitError) -> Seq<char> {
    match e {
        EmitError::KernelLaunch => "kernel launch call has no event ID"@,
        EmitError::CopyLaunch => "memcpy API call has no event ID"@,
    }
}

impl EmitError {
    pub fn message(&self) -> (text: &'static str)
        ensures
            text@ == emit_error_text(*self),
    {
        match self {
            EmitError::KernelLaunch => "kernel launch call has no event ID",
            EmitError::CopyLaunch => "memcpy API call has no event ID",
        }
    }
}

/// Draws a kernel.
fn draw_kernel(input: &EmitInput<'_>, plan: &Plan, k: usize) -> (drawn: Option<(Vec<TraceEvent>, TraceRow)>)
    requires
        plan.covers(input@),
        placeable(input@),
        k < input.kernels@.len(),
    ensures
        drawn is Some <==> launch_named(input@, input.kernels@[k as int].launch_call),
        drawn matches Some(d) ==> {
            &&& event_views(d.0@) == kernel_events(input@, k as int)
            &&& d.1@ == kernel_row(input@, k as int)
        },
{
    let ghost s = input@;
    let kernel = &input.kernels[k];
    let source: i64 = source_pid(kernel.global_pid);
    let stream_key = (source, kernel.device, kernel.context, kernel.stream);
    let group = (source, kernel.device, 0i64);
    proof {
        lemma_integers_keyed();
        lemma_pair_keyed();
        lemma_quad_keyed();
        lemma_triple_keyed::<i64, i64, i64>();
        assert(kernel_placed(s, k as int));
        lemma_kernel_device_placed(s, k as int);
        assert(plan.devices.processes@.contains_key((source, kernel.device)));
        assert(kernel_stream_key(s, k as int) == stream_key);
        assert(stream_entries(s)[k as int].0 == stream_key);
        assert(has_item(stream_entries(s), stream_key, k));
        assert(kernel_entries(s)[k as int].0 == group);
        assert(has_item(kernel_entries(s), group, k));
    }
    let pid: i64 = number_of(&plan.devices.processes, (source, kernel.device));
    let stream_track: i64 = plan.streams.streams.track(
        stream_key,
        k,
        Ghost(Packing::Disjoint),
        Ghost(stream_entries(s)),
        Ghost(1),
    );
    let core_track: i64 = plan.launch.core.track(
        group,
        k,
        Ghost(Packing::Disjoint),
        Ghost(kernel_entries(s)),
        Ghost(400_000_000),
    );
    let ts: i64 = nanos_between(kernel.start, input.origin_ns);
    let dur: i64 = nanos_between(kernel.end, kernel.start);
    let args = make_kernel_args(input, k);
    let mut events = vec![
        make_slice(kernel.name.as_str(), "cuda", ts, dur, stream_track, pid, copied_args(&args)),
        make_slice(kernel.name.as_str(), "cuda_kernel_usage", ts, dur, core_track, pid, make_core_args(kernel)),
    ];
    assert(event_views(events@) =~= seq![stream_slice(s, k as int), core_slice(s, k as int)]);
    let row = TraceRow {
        event_id: Some(copied(kernel.event_id.as_str())),
        launch_event_id: copied_launch_id(input, kernel.launch_call),
        stream_id: Some(kernel.stream as u64),
        correlation_id: Some(kernel.correlation as u32),
        stream_sequence: Some(kernel.sequence),
        ..make_row(
            input,
            copied("cuda_kernel"),
            "cuda",
            copied(kernel.name.as_str()),
            kernel.start,
            kernel.end,
            label_device(kernel.device, source),
            label_stream(kernel.context, kernel.stream),
            args,
        )
    };
    if let Some(c) = kernel.launch_call {
        match &input.runtime[c].event_id {
            Some(id) => {
                let arrows = draw_launch(input, plan, k, c, id.as_str(), stream_track, core_track, pid);
                append_events(&mut events, arrows);
            },
            None => {
                return None;
            },
        }
    }
    assert(event_views(events@) =~= kernel_events(s, k as int));
    Some((events, row))
}

/// Every kernel that a call launched can refer to the call.
pub open spec fn kernels_named(s: Scene) -> bool {
    forall|k: int| 0 <= k < s.kernels.len() ==> launch_named(s, (#[trigger] s.kernels[k]).launch_call)
}

/// Draws the kernels.
pub(crate) fn draw_kernels(input: &EmitInput<'_>, plan: &Plan) -> (drawn: Option<(Vec<TraceEvent>, Vec<TraceRow>)>)
    requires
        plan.covers(input@),
        placeable(input@),
    ensures
        drawn is Some <==> kernels_named(input@),
        drawn matches Some(d) ==> {
            &&& event_views(d.0@) == concat(input@.kernels.len() as int, |k: int| kernel_events(input@, k))
            &&& row_views(d.1@) == Seq::new(input@.kernels.len(), |k: int| kernel_row(input@, k))
        },
{
    let ghost s = input@;
    let mut events: Vec<TraceEvent> = Vec::new();
    let mut rows: Vec<TraceRow> = Vec::new();
    let ghost f = |k: int| kernel_events(s, k);
    assert(event_views(events@) =~= concat(0, f));
    for k in 0..input.kernels.len()
        invariant
            s == input@,
            plan.covers(s),
            placeable(s),
            f == (|k: int| kernel_events(s, k)),
            event_views(events@) == concat(k as int, f),
            rows@.len() == k,
            forall|i: int| 0 <= i < k ==> (#[trigger] rows@[i])@ == kernel_row(s, i),
            forall|i: int| 0 <= i < k ==> launch_named(s, (#[trigger] s.kernels[i]).launch_call),
    {
        match draw_kernel(input, plan, k) {
            Some((some_events, row)) => {
                append_events(&mut events, some_events);
                rows.push(row);
            },
            None => {
                assert(!launch_named(s, s.kernels[k as int].launch_call));
                return None;
            },
        }
    }
    assert(row_views(rows@) =~= Seq::new(s.kernels.len(), |k: int| kernel_row(s, k)));
    Some((events, rows))
}

/// The duration of a copy.
pub open spec fn copy_nanos(copy: Memcpy) -> i64 {
    elapsed(copy.end as int, copy.start as int)
}

/// The bytes and the nanoseconds of a copy that took time.
pub open spec fn copy_rate(copy: Memcpy) -> Option<(u64, i64)> {
    if copy_nanos(copy) > 0 {
        Some((copy.bytes, copy_nanos(copy)))
    } else {
        None
    }
}

fn rate_of(copy: &Memcpy) -> (rate: Option<(u64, i64)>)
    ensures
        rate == copy_rate(*copy),
{
    let ns: i64 = nanos_between(copy.end, copy.start);
    if ns > 0 {
        Some((copy.bytes, ns))
    } else {
        None
    }
}

pub open spec fn copy_args(s: Scene, i: int) -> Seq<ArgView> {
    let copy = s.memcpys[i];
    seq![
        arg("direction"@, ValueView::Text(direction_text(copy.copy_kind))),
        arg("copyKindId"@, ValueView::Int(copy.copy_kind)),
        arg("bytes"@, ValueView::Count(copy.bytes)),
        arg("durationNs"@, ValueView::Int(copy_nanos(copy))),
        arg("bandwidthGBps"@, ValueView::Rate(copy_rate(copy))),
        arg("sourceProcessId"@, ValueView::Int(pid_of(copy.global_pid))),
        arg("deviceId"@, ValueView::Int(primary(s, i))),
        arg("activityDeviceId"@, ValueView::Int(copy.device)),
        arg("displayDeviceIds"@, ValueView::Ints(ordered(shown(s, i)))),
        arg("contextId"@, ValueView::Int(copy.context)),
        arg("streamId"@, ValueView::Int(copy.stream)),
        arg("correlationId"@, ValueView::Int(copy.correlation)),
        arg("eventId"@, ValueView::Text(copy.event_id@)),
        arg("launchEventId"@, ValueView::MaybeText(launch_id(s, copy.launch_call))),
        arg("srcMemoryKindId"@, ValueView::Int(copy.src_kind)),
        arg("srcMemoryKind"@, ValueView::Text(memory_text(copy.src_kind))),
        arg("dstMemoryKindId"@, ValueView::Int(copy.dst_kind)),
        arg("dstMemoryKind"@, ValueView::Text(memory_text(copy.dst_kind))),
        arg("srcDeviceId"@, ValueView::Int(copy.src_device)),
        arg("srcContextId"@, ValueView::Int(copy.src_context)),
        arg("dstDeviceId"@, ValueView::Int(copy.dst_device)),
        arg("dstContextId"@, ValueView::Int(copy.dst_context)),
        arg("graphNodeId"@, ValueView::Int(copy.graph_node)),
        arg("virtualAddress"@, ValueView::Text(copy.virtual_address@)),
        arg("copyCount"@, ValueView::Count(copy.copy_count)),
        arg("gpuStartNs"@, ValueView::Int(copy.start)),
        arg("gpuEndNs"@, ValueView::Int(copy.end)),
    ]
}

pub open spec fn usage_args(copy: Memcpy, device: i64) -> Seq<ArgView> {
    seq![
        arg("direction"@, ValueView::Text(direction_text(copy.copy_kind))),
        arg("bytes"@, ValueView::Count(copy.bytes)),
        arg("bandwidthGBps"@, ValueView::Rate(copy_rate(copy))),
        arg("deviceId"@, ValueView::Int(device)),
        arg("eventId"@, ValueView::Text(copy.event_id@)),
    ]
}

pub open spec fn copy_flow_args(s: Scene, i: int, c: int, device: i64) -> Seq<ArgView> {
    let copy = s.memcpys[i];
    let call = s.runtime[c];
    seq![
        arg("from"@, ValueView::Text(id_text(call))),
        arg("to"@, ValueView::Text(copy.event_id@)),
        arg("direction"@, ValueView::Text(direction_text(copy.copy_kind))),
        arg("correlationId"@, ValueView::Int(copy.correlation)),
        arg("deviceId"@, ValueView::Int(device)),
        arg("activityDeviceId"@, ValueView::Int(copy.device)),
        arg("displayDeviceIds"@, ValueView::Ints(ordered(shown(s, i)))),
        arg("streamId"@, ValueView::Int(copy.stream)),
        arg("bytes"@, ValueView::Count(copy.bytes)),
        arg("cpuCallStartNs"@, ValueView::Int(call.start)),
        arg("cpuCallEndNs"@, ValueView::Int(call.end)),
        arg("gpuCopyStartNs"@, ValueView::Int(copy.start)),
        arg("gpuCopyEndNs"@, ValueView::Int(copy.end)),
    ]
}

pub open spec fn copy_name(copy: Memcpy) -> Seq<char> {
    "CUDA Memcpy "@ + direction_text(copy.copy_kind)
}

/// The slice of a copy on the hardware stream of its device.
pub open spec fn copy_slice(s: Scene, i: int) -> EventView {
    let copy = s.memcpys[i];
    slice(
        copy_name(copy),
        "cuda_memcpy"@,
        elapsed(copy.start as int, s.origin_ns as int),
        copy_nanos(copy),
        copy_stream_tid(s, i),
        gpu_process(s, pid_of(copy.global_pid), primary(s, i)),
        copy_args(s, i),
    )
}

/// The copy track on which a copy is shown under a device.
pub open spec fn usage_tid(s: Scene, i: int, device: i64) -> i64 {
    copy_tid(s, (pid_of(s.memcpys[i].global_pid), device, copy_track(s.memcpys[i].copy_kind)))
}

/// The slice of a copy on a copy track.
pub open spec fn usage_slice(s: Scene, i: int, device: i64) -> EventView {
    let copy = s.memcpys[i];
    slice(
        copy_name(copy),
        "cuda_copy_usage"@,
        elapsed(copy.start as int, s.origin_ns as int),
        copy_nanos(copy),
        usage_tid(s, i, device),
        gpu_process(s, pid_of(copy.global_pid), device),
        usage_args(copy, device),
    )
}

/// The slices of a copy: on its stream, and on a copy track of each of its devices.
pub open spec fn copy_slices(s: Scene, i: int) -> Seq<EventView> {
    let devices = ordered(shown(s, i));
    seq![copy_slice(s, i)] + Seq::new(devices.len(), |j: int| usage_slice(s, i, devices[j]))
}

/// The arrow from a call to the stream slice of a copy.
pub open spec fn copy_arrow(s: Scene, i: int, c: int) -> Seq<EventView> {
    let copy = s.memcpys[i];
    let pid = gpu_process(s, pid_of(copy.global_pid), primary(s, i));
    arrow(
        "cuda_memcpy_"@ + slug(direction_text(copy.copy_kind)),
        "cuda_memcpy_dependency"@,
        launch_spot(s, c, primary(s, i), copy.start, pid),
        arrival_spot(s, copy.start, copy.end, copy_stream_tid(s, i), pid),
        copy_flow_args(s, i, c, primary(s, i)),
        flow_number(s.report, MEMCPY_FLOW_ID_BASE, i),
    )
}

/// How many arrows to PCIe tracks a copy has.
pub open spec fn pcie_arrows(s: Scene, i: int) -> nat {
    if s.memcpys[i].launch_call is Some && is_pcie(s.memcpys[i].copy_kind) {
        ordered(shown(s, i)).len()
    } else {
        0
    }
}

/// How many arrows to PCIe tracks the first `n` copies have.
pub open spec fn pcie_before(s: Scene, n: int) -> nat
    decreases n,
{
    if n <= 0 {
        0
    } else {
        pcie_before(s, n - 1) + pcie_arrows(s, n - 1)
    }
}

/// The arrow from a call to the slice of a copy on the PCIe track of its `j`th device.
pub open spec fn pcie_arrow(s: Scene, i: int, c: int, j: int) -> Seq<EventView> {
    let copy = s.memcpys[i];
    let device = ordered(shown(s, i))[j];
    let pid = gpu_process(s, pid_of(copy.global_pid), device);
    arrow(
        "pcie_usage_"@ + slug(direction_text(copy.copy_kind)),
        "pcie_usage_dependency"@,
        launch_spot(s, c, device, copy.start, pid),
        arrival_spot(s, copy.start, copy.end, usage_tid(s, i, device), pid),
        copy_flow_args(s, i, c, device).push(arg("targetTrack"@, ValueView::Text("PCIe Usage"@))),
        flow_number(s.report, PCIE_USAGE_FLOW_ID_BASE, pcie_before(s, i) + j),
    )
}

pub open spec fn copy_arrows(s: Scene, i: int) -> Seq<EventView> {
    match s.memcpys[i].launch_call {
        Some(c) => copy_arrow(s, i, c as int) + concat(
            pcie_arrows(s, i) as int,
            |j: int| pcie_arrow(s, i, c as int, j),
        ),
        None => Seq::empty(),
    }
}

/// Everything drawn for a copy.
pub open spec fn copy_events(s: Scene, i: int) -> Seq<EventView> {
    copy_slices(s, i) + copy_arrows(s, i)
}

pub open spec fn copy_row(s: Scene, i: int) -> RowView {
    let copy = s.memcpys[i];
    RowView {
        event_id: Some(copy.event_id@),
        launch_event_id: launch_id(s, copy.launch_call),
        stream_id: Some(copy.stream as u64),
        correlation_id: Some(copy.correlation as u32),
        ..plain_row(
            s,
            "cuda_memcpy_"@ + slug(direction_text(copy.copy_kind)),
            "cuda_memcpy"@,
            copy_name(copy),
            copy.start,
            copy.end,
            device_label(primary(s, i), pid_of(copy.global_pid)),
            stream_text(copy.context, copy.stream),
            copy_args(s, i),
        )
    }
}

fn make_copy_args(input: &EmitInput<'_>, plan: &Plan, i: usize) -> (args: Vec<Arg>)
    requires
        plan.covers(input@),
        i < input.memcpys@.len(),
        copy_placed(input@, i as int),
    ensures
        arg_views(args@) == copy_args(input@, i as int),
{
    let copy = &input.memcpys[i];
    let launch = copied_launch_id(input, copy.launch_call);
    assert(lists_devices(plan.devices.shown@[i as int]@, shown(input@, i as int)));
    let args = vec![
        text_arg("direction", copy_direction(copy.copy_kind)),
        int_arg("copyKindId", copy.copy_kind),
        count_arg("bytes", copy.bytes),
        int_arg("durationNs", nanos_between(copy.end, copy.start)),
        rate_arg("bandwidthGBps", rate_of(copy)),
        int_arg("sourceProcessId", source_pid(copy.global_pid)),
        int_arg("deviceId", plan.devices.primary[i]),
        int_arg("activityDeviceId", copy.device),
        ints_arg("displayDeviceIds", plan.devices.shown[i].as_slice()),
        int_arg("contextId", copy.context),
        int_arg("streamId", copy.stream),
        int_arg("correlationId", copy.correlation),
        text_arg("eventId", copy.event_id.as_str()),
        maybe_text_arg("launchEventId", &launch),
        int_arg("srcMemoryKindId", copy.src_kind),
        text_arg("srcMemoryKind", memory_kind(copy.src_kind)),
        int_arg("dstMemoryKindId", copy.dst_kind),
        text_arg("dstMemoryKind", memory_kind(copy.dst_kind)),
        int_arg("srcDeviceId", copy.src_device),
        int_arg("srcContextId", copy.src_context),
        int_arg("dstDeviceId", copy.dst_device),
        int_arg("dstContextId", copy.dst_context),
        int_arg("graphNodeId", copy.graph_node),
        text_arg("virtualAddress", copy.virtual_address.as_str()),
        count_arg("copyCount", copy.copy_count),
        int_arg("gpuStartNs", copy.start),
        int_arg("gpuEndNs", copy.end),
    ];
    assert(arg_views(args@) =~= copy_args(input@, i as int));
    args
}

fn make_usage_args(copy: &Memcpy, device: i64) -> (args: Vec<Arg>)
    ensures
        arg_views(args@) == usage_args(*copy, device),
{
    let args = vec![
        text_arg("direction", copy_direction(copy.copy_kind)),
        count_arg("bytes", copy.bytes),
        rate_arg("bandwidthGBps", rate_of(copy)),
        int_arg("deviceId", device),
        text_arg("eventId", copy.event_id.as_str()),
    ];
    assert(arg_views(args@) =~= usage_args(*copy, device));
    args
}

fn make_copy_flow_args(input: &EmitInput<'_>, plan: &Plan, i: usize, c: usize, id: &str, device: i64) -> (args: Vec<
    Arg,
>)
    requires
        plan.covers(input@),
        i < input.memcpys@.len(),
        c < input.runtime@.len(),
        visible(input.runtime@[c as int]),
        id@ == id_text(input.runtime@[c as int]),
    ensures
        arg_views(args@) == copy_flow_args(input@, i as int, c as int, device),
{
    let copy = &input.memcpys[i];
    let call = &input.runtime[c];
    assert(lists_devices(plan.devices.shown@[i as int]@, shown(input@, i as int)));
    let args = vec![
        text_arg("from", id),
        text_arg("to", copy.event_id.as_str()),
        text_arg("direction", copy_direction(copy.copy_kind)),
        int_arg("correlationId", copy.correlation),
        int_arg("deviceId", device),
        int_arg("activityDeviceId", copy.device),
        ints_arg("displayDeviceIds", plan.devices.shown[i].as_slice()),
        int_arg("streamId", copy.stream),
        count_arg("bytes", copy.bytes),
        int_arg("cpuCallStartNs", call.start),
        int_arg("cpuCallEndNs", call.end),
        int_arg("gpuCopyStartNs", copy.start),
        int_arg("gpuCopyEndNs", copy.end),
    ];
    assert(arg_views(args@) =~= copy_flow_args(input@, i as int, c as int, device));
    args
}

fn joined_label(text: &str, more: &str) -> (label: String)
    ensures
        label@ == text@ + more@,
{
    let mut label = copied(text);
    label.append(more);
    label
}

/// The track of a copy on its hardware stream.
fn copy_stream_track(input: &EmitInput<'_>, plan: &Plan, i: usize) -> (tid: i64)
    requires
        plan.covers(input@),
        i < input.memcpys@.len(),
    ensures
        tid == copy_stream_tid(input@, i as int),
{
    let ghost s = input@;
    let copy = &input.memcpys[i];
    let key = (source_pid(copy.global_pid), plan.devices.primary[i], copy.context, copy.stream);
    let item: usize = input.kernels.len() + i;
    proof {
        lemma_quad_keyed();
        assert(key == copy_stream_key(s, i as int));
        assert(stream_entries(s)[item as int].0 == key);
        assert(has_item(stream_entries(s), key, item));
    }
    plan.streams.streams.track(key, item, Ghost(Packing::Disjoint), Ghost(stream_entries(s)), Ghost(1))
}

/// Draws a copy on its stream and on its copy tracks.
fn draw_copy_slices(input: &EmitInput<'_>, plan: &Plan, i: usize) -> (events: Vec<TraceEvent>)
    requires
        plan.covers(input@),
        i < input.memcpys@.len(),
        copy_placed(input@, i as int),
    ensures
        event_views(events@) == copy_slices(input@, i as int),
{
    let ghost s = input@;
    let copy = &input.memcpys[i];
    let source: i64 = source_pid(copy.global_pid);
    let device: i64 = plan.devices.primary[i];
    let track: i64 = copy_track_rank(copy.copy_kind);
    let devices = &plan.devices.shown[i];
    proof {
        lemma_integers_keyed();
        lemma_pair_keyed();
        lemma_triple_keyed::<i64, i64, i64>();
        lemma_copies_placed(s, i as int);
        assert(lists_devices(devices@, shown(s, i as int)));
        assert(plan.devices.processes@.contains_key((source, device)));
    }
    let ts: i64 = nanos_between(copy.start, input.origin_ns);
    let dur: i64 = nanos_between(copy.end, copy.start);
    let name = joined_label("CUDA Memcpy ", copy_direction(copy.copy_kind));
    let mut events = vec![
        make_slice(
            name.as_str(),
            "cuda_memcpy",
            ts,
            dur,
            copy_stream_track(input, plan, i),
            number_of(&plan.devices.processes, (source, device)),
            make_copy_args(input, plan, i),
        ),
    ];
    for j in 0..devices.len()
        invariant
            keyed::<(i64, i64)>(),
            keyed::<(i64, i64, i64)>(),
            s == input@,
            plan.covers(s),
            i < s.memcpys.len(),
            *copy == s.memcpys[i as int],
            source == pid_of(copy.global_pid),
            track == copy_track(copy.copy_kind),
            lists_devices(devices@, shown(s, i as int)),
            ts == elapsed(copy.start as int, s.origin_ns as int),
            dur == copy_nanos(*copy),
            name@ == copy_name(*copy),
            forall|d: i64| #[trigger]
                shown(s, i as int).contains(d) ==> gpu_keys(s).contains((pid_of(s.memcpys[i as int].global_pid), d)),
            events@.len() == j + 1,
            events@[0]@ == copy_slice(s, i as int),
            forall|k: int| 0 <= k < j ==> (#[trigger] events@[k + 1])@ == usage_slice(s, i as int, devices@[k]),
    {
        let device: i64 = devices[j];
        proof {
            assert(devices@.to_set().contains(device));
            assert(shown(s, i as int).contains(device));
            assert(plan.devices.processes@.contains_key((source, device)));
            assert(copy_on_track(s, i as int, (source, device, track)));
            assert(copy_track_keys(s).contains((source, device, track)));
            assert(plan.streams.copy_tracks@.contains_key((source, device, track)));
        }
        let ghost before = events@;
        events.push(
            make_slice(
                name.as_str(),
                "cuda_copy_usage",
                ts,
                dur,
                number_of(&plan.streams.copy_tracks, (source, device, track)),
                number_of(&plan.devices.processes, (source, device)),
                make_usage_args(copy, device),
            ),
        );
        assert forall|k: int| 0 <= k < j + 1 implies (#[trigger] events@[k + 1])@ == usage_slice(
            s,
            i as int,
            devices@[k],
        ) by {
            if k < j {
                assert(events@[k + 1] == before[k + 1]);
            }
        }
    }
    proof {
        let views = event_views(events@);
        assert forall|k: int| 0 <= k < views.len() implies views[k] == copy_slices(s, i as int)[k] by {
            if k > 0 {
                assert(events@[(k - 1) + 1]@ == usage_slice(s, i as int, devices@[k - 1]));
            }
        }
        assert(views =~= copy_slices(s, i as int));
    }
    events
}

/// Draws the arrows to a copy from the call that started it.
fn draw_copy_arrows(input: &EmitInput<'_>, plan: &Plan, i: usize, c: usize, id: &str, drawn: usize) -> (events: Vec<
    TraceEvent,
>)
    requires
        plan.covers(input@),
        placeable(input@),
        i < input.memcpys@.len(),
        input.memcpys@[i as int].launch_call == Some(c),
        visible(input.runtime@[c as int]),
        id@ == id_text(input.runtime@[c as int]),
        drawn == pcie_before(input@, i as int),
    ensures
        event_views(events@) == copy_arrows(input@, i as int),
{
    let ghost s = input@;
    let copy = &input.memcpys[i];
    assert(copy_placed(s, i as int));
    let call = &input.runtime[c];
    let source: i64 = source_pid(copy.global_pid);
    let device: i64 = plan.devices.primary[i];
    let devices = &plan.devices.shown[i];
    proof {
        lemma_integers_keyed();
        lemma_pair_keyed();
        lemma_triple_keyed::<i64, i64, i64>();
        lemma_copies_placed(s, i as int);
        lemma_launch_devices(s);
        assert(lists_devices(devices@, shown(s, i as int)));
        assert(plan.devices.processes@.contains_key((source, device)));
    }
    let leaves: i64 = nanos_between(flow_start_ns(call, copy.start), input.origin_ns);
    let arrives: i64 = nanos_between(flow_end_ns(copy.start, copy.end), input.origin_ns);
    let pid: i64 = number_of(&plan.devices.processes, (source, device));
    let name = joined_label("cuda_memcpy_", direction_slug(copy.copy_kind));
    let mut events = make_arrow(
        name.as_str(),
        "cuda_memcpy_dependency",
        Spot { ts_ns: leaves, tid: call_track(plan, input, c, device), pid },
        Spot { ts_ns: arrives, tid: copy_stream_track(input, plan, i), pid },
        make_copy_flow_args(input, plan, i, c, id, device),
        flow_id_at(plan.flow_space, MEMCPY_FLOW_ID_BASE, i, 0, Ghost(input@.report)),
    );
    let ghost first = copy_arrow(s, i as int, c as int);
    let ghost f = |j: int| pcie_arrow(s, i as int, c as int, j);
    assert(event_views(events@) =~= first + concat(0, f));
    if is_pcie_copy(copy.copy_kind) {
        let track: i64 = copy_track_rank(copy.copy_kind);
        let name = joined_label("pcie_usage_", direction_slug(copy.copy_kind));
        for j in 0..devices.len()
            invariant
                keyed::<(i64, i64)>(),
                keyed::<(i64, i64, i64)>(),
                s == input@,
                plan.covers(s),
                i < s.memcpys.len(),
                c < s.runtime.len(),
                s.memcpys[i as int].launch_call == Some(c),
                visible(s.runtime[c as int]),
                id@ == id_text(s.runtime[c as int]),
                *copy == s.memcpys[i as int],
                source == pid_of(copy.global_pid),
                track == copy_track(copy.copy_kind),
                drawn == pcie_before(s, i as int),
                lists_devices(devices@, shown(s, i as int)),
                leaves == elapsed(flow_origin(s.runtime[c as int], copy.start) as int, s.origin_ns as int),
                arrives == elapsed(flow_target(copy.start, copy.end) as int, s.origin_ns as int),
                name@ == "pcie_usage_"@ + slug(direction_text(copy.copy_kind)),
                forall|d: i64| #[trigger]
                    shown(s, i as int).contains(d) ==> gpu_keys(s).contains(
                        (pid_of(s.memcpys[i as int].global_pid), d),
                    ),
                forall|d: i64| #[trigger]
                    shown(s, i as int).contains(d) ==> call_devices(s, c as int).contains(d),
                f == (|j: int| pcie_arrow(s, i as int, c as int, j)),
                event_views(events@) == first + concat(j as int, f),
        {
            let device: i64 = devices[j];
            proof {
                assert(devices@.to_set().contains(device));
                assert(shown(s, i as int).contains(device));
                assert(plan.devices.processes@.contains_key((source, device)));
                assert(copy_on_track(s, i as int, (source, device, track)));
                assert(copy_track_keys(s).contains((source, device, track)));
                assert(plan.streams.copy_tracks@.contains_key((source, device, track)));
            }
            let pid: i64 = number_of(&plan.devices.processes, (source, device));
            let mut args = make_copy_flow_args(input, plan, i, c, id, device);
            let ghost plain = arg_views(args@);
            args.push(text_arg("targetTrack", "PCIe Usage"));
            assert(arg_views(args@) =~= plain.push(arg("targetTrack"@, ValueView::Text("PCIe Usage"@))));
            let ghost before = event_views(events@);
            append_events(
                &mut events,
                make_arrow(
                    name.as_str(),
                    "pcie_usage_dependency",
                    Spot { ts_ns: leaves, tid: call_track(plan, input, c, device), pid },
                    Spot {
                        ts_ns: arrives,
                        tid: number_of(&plan.streams.copy_tracks, (source, device, track)),
                        pid,
                    },
                    args,
                    flow_id_at(plan.flow_space, PCIE_USAGE_FLOW_ID_BASE, drawn, j, Ghost(input@.report)),
                ),
            );
            assert(event_views(events@) =~= first + concat(j + 1, f));
        }
        assert(pcie_arrows(s, i as int) == devices@.len());
    }
    events
}

/// The row of a copy.
fn copy_to_row(input: &EmitInput<'_>, plan: &Plan, i: usize) -> (row: TraceRow)
    requires
        plan.covers(input@),
        i < input.memcpys@.len(),
        copy_placed(input@, i as int),
    ensures
        row@ == copy_row(input@, i as int),
{
    let copy = &input.memcpys[i];
    assert(plan.devices.primary@[i as int] == primary(input@, i as int));
    TraceRow {
        event_id: Some(copied(copy.event_id.as_str())),
        launch_event_id: copied_launch_id(input, copy.launch_call),
        stream_id: Some(copy.stream as u64),
        correlation_id: Some(copy.correlation as u32),
        ..make_row(
            input,
            joined_label("cuda_memcpy_", direction_slug(copy.copy_kind)),
            "cuda_memcpy",
            joined_label("CUDA Memcpy ", copy_direction(copy.copy_kind)),
            copy.start,
            copy.end,
            label_device(plan.devices.primary[i], source_pid(copy.global_pid)),
            label_stream(copy.context, copy.stream),
            make_copy_args(input, plan, i),
        )
    }
}

/// Every copy that a call started can refer to the call.
pub open spec fn copies_named(s: Scene) -> bool {
    forall|i: int| 0 <= i < s.memcpys.len() ==> launch_named(s, (#[trigger] s.memcpys[i]).launch_call)
}

proof fn lemma_concat_len<T>(n: int, f: spec_fn(int) -> Seq<T>)
    requires
        0 <= n,
        forall|j: int| 0 <= j < n ==> (#[trigger] f(j)).len() >= 1,
    ensures
        concat(n, f).len() >= n,
    decreases n,
{
    if n > 0 {
        lemma_concat_len(n - 1, f);
        assert(f(n - 1).len() >= 1);
    }
}

proof fn lemma_pcie_bound(s: Scene, i: int)
    ensures
        copy_events(s, i).len() >= pcie_arrows(s, i),
{
    if s.memcpys[i].launch_call is Some {
        let c = s.memcpys[i].launch_call->0 as int;
        let g = |j: int| pcie_arrow(s, i, c, j);
        assert forall|j: int| 0 <= j < pcie_arrows(s, i) implies (#[trigger] g(j)).len() >= 1 by {
            assert(pcie_arrow(s, i, c, j).len() == 2);
        }
        lemma_concat_len(pcie_arrows(s, i) as int, g);
    }
}

/// Draws a copy; `drawn` counts the arrows to PCIe tracks so far.
fn draw_copy(input: &EmitInput<'_>, plan: &Plan, i: usize, drawn: usize) -> (events: Option<Vec<TraceEvent>>)
    requires
        plan.covers(input@),
        placeable(input@),
        i < input.memcpys@.len(),
        drawn == pcie_before(input@, i as int),
    ensures
        events is Some <==> launch_named(input@, input.memcpys@[i as int].launch_call),
        events matches Some(e) ==> event_views(e@) == copy_events(input@, i as int),
{
    assert(copy_placed(input@, i as int));
    let mut events = draw_copy_slices(input, plan, i);
    if let Some(c) = input.memcpys[i].launch_call {
        match &input.runtime[c].event_id {
            Some(id) => {
                append_events(&mut events, draw_copy_arrows(input, plan, i, c, id.as_str(), drawn));
            },
            None => {
                return None;
            },
        }
    }
    assert(event_views(events@) =~= copy_events(input@, i as int));
    Some(events)
}

/// The arrows to PCIe tracks are among the events.
proof fn lemma_pcie_total(s: Scene, n: int)
    requires
        0 <= n,
    ensures
        pcie_before(s, n) <= concat(n, |i: int| copy_events(s, i)).len(),
    decreases n,
{
    if n > 0 {
        lemma_pcie_total(s, n - 1);
        lemma_pcie_bound(s, n - 1);
    }
}

/// Counts the arrows to PCIe tracks that a copy has.
fn count_pcie_arrows(input: &EmitInput<'_>, plan: &Plan, i: usize) -> (n: usize)
    requires
        plan.covers(input@),
        i < input.memcpys@.len(),
    ensures
        n == pcie_arrows(input@, i as int),
{
    if input.memcpys[i].launch_call.is_some() && is_pcie_copy(input.memcpys[i].copy_kind) {
        assert(lists_devices(plan.devices.shown@[i as int]@, shown(input@, i as int)));
        plan.devices.shown[i].len()
    } else {
        0
    }
}

/// Draws the copies, and counts the arrows to PCIe tracks.
#[verifier::spinoff_prover]
pub(crate) fn draw_copies(input: &EmitInput<'_>, plan: &Plan) -> (drawn: Option<
    (Vec<TraceEvent>, Vec<TraceRow>, usize),
>)
    requires
        plan.covers(input@),
        placeable(input@),
    ensures
        drawn is Some <==> copies_named(input@),
        drawn matches Some(d) ==> {
            &&& event_views(d.0@) == concat(input@.memcpys.len() as int, |i: int| copy_events(input@, i))
            &&& row_views(d.1@) == Seq::new(input@.memcpys.len(), |i: int| copy_row(input@, i))
            &&& d.2 == pcie_before(input@, input@.memcpys.len() as int)
        },
{
    let ghost s = input@;
    let mut events: Vec<TraceEvent> = Vec::new();
    let mut rows: Vec<TraceRow> = Vec::new();
    let mut pcie: usize = 0;
    let ghost f = |i: int| copy_events(s, i);
    assert(event_views(events@) =~= concat(0, f));
    for i in 0..input.memcpys.len()
        invariant
            s == input@,
            plan.covers(s),
            placeable(s),
            f == (|i: int| copy_events(s, i)),
            event_views(events@) == concat(i as int, f),
            pcie == pcie_before(s, i as int),
            rows@.len() == i,
            forall|k: int| 0 <= k < i ==> (#[trigger] rows@[k])@ == copy_row(s, k),
            forall|k: int| 0 <= k < i ==> launch_named(s, (#[trigger] s.memcpys[k]).launch_call),
    {
        assert(copy_placed(s, i as int));
        match draw_copy(input, plan, i, pcie) {
            Some(some_events) => {
                append_events(&mut events, some_events);
            },
            None => {
                assert(!launch_named(s, s.memcpys[i as int].launch_call));
                return None;
            },
        }
        rows.push(copy_to_row(input, plan, i));
        let total: usize = events.len();
        proof {
            lemma_pcie_total(s, i + 1);
            assert(concat(i + 1, f) == concat(i as int, f) + f(i as int));
            assert(event_views(events@).len() == total);
        }
        pcie = pcie + count_pcie_arrows(input, plan, i);
    }
    assert(row_views(rows@) =~= Seq::new(s.memcpys.len(), |i: int| copy_row(s, i)));
    Some((events, rows, pcie))
}

} // verus!
