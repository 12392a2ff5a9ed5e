//! The whole timeline: its events and its table rows.
use crate::event::{
    append_events, append_rows, event_views, row_views, DependencyRow, EventView, RowView, TraceEvent, TraceRow,
};
use crate::naming::{metadata_events, name_everything};
use crate::ranges::{draw_ranges, range_events, range_rows, ranges_to_rows};
use crate::scene::{is_placeable, placeable, plan_timeline, EmitInput, Plan, Scene};
use crate::seqs::concat;
use crate::slices::{
    call_events, call_rows, copies_named, copy_events, copy_row, draw_calls, draw_copies, draw_kernels, kernel_events,
    kernel_row, kernels_named, pcie_before, EmitError,
};
use vstd::prelude::*;

verus! {

/// The events of a timeline: metadata, calls, kernels, copies, then ranges.
pub open spec fn timeline_events(s: Scene) -> Seq<EventView> {
    metadata_events(s) + concat(s.runtime.len() as int, |c: int| call_events(s, c)) + concat(
        s.kernels.len() as int,
        |k: int| kernel_events(s, k),
    ) + concat(s.memcpys.len() as int, |i: int| copy_events(s, i)) + range_events(s)
}

/// The rows of a timeline, in the order of its events.
pub open spec fn timeline_rows(s: Scene) -> Seq<RowView> {
    concat(s.runtime.len() as int, |c: int| call_rows(s, c)) + Seq::new(s.kernels.len(), |k: int| kernel_row(s, k))
        + Seq::new(s.memcpys.len(), |i: int| copy_row(s, i)) + concat(s.nvtx.len() as int, |r: int| range_rows(s, r))
}

/// A drawn timeline. Only launches are connected, so there are no dependencies
/// between the kernels of a stream.
pub struct Timeline {
    pub events: Vec<TraceEvent>,
    pub rows: Vec<TraceRow>,
    pub dependencies: Vec<DependencyRow>,
    pub json_events: usize,
    pub pcie_usage_launch_dependencies: usize,
}

impl Timeline {
    /// The timeline shows the scene.
    pub open spec fn shows(self, s: Scene) -> bool {
        &&& event_views(self.events@) == timeline_events(s)
        &&& row_views(self.rows@) == timeline_rows(s)
        &&& self.dependencies@.len() == 0
        &&& self.json_events == timeline_events(s).len()
        &&& self.pcie_usage_launch_dependencies == pcie_before(s, s.memcpys.len() as int)
    }
}

/// What drawing a scene gives.
pub open spec fn drawn(s: Scene, outcome: Result<Timeline, EmitError>) -> bool {
    match outcome {
        Ok(timeline) => kernels_named(s) && copies_named(s) && timeline.shows(s),
        Err(EmitError::KernelLaunch) => !kernels_named(s),
        Err(EmitError::CopyLaunch) => kernels_named(s) && !copies_named(s),
    }
}

/// Draws a planned timeline.
pub(crate) fn draw_planned(input: &EmitInput<'_>, plan: &Plan) -> (outcome: Result<Timeline, EmitError>)
    requires
        plan.covers(input@),
        placeable(input@),
    ensures
        drawn(input@, outcome),
{
    let ghost s = input@;
    let mut events = name_everything(plan, Ghost(s));
    let (more_events, mut rows) = draw_calls(input, plan);
    append_events(&mut events, more_events);
    match draw_kernels(input, plan) {
        Some((more_events, more_rows)) => {
            append_events(&mut events, more_events);
            append_rows(&mut rows, more_rows);
        },
        None => {
            return Err(EmitError::KernelLaunch);
        },
    }
    let pcie_usage_launch_dependencies: usize = match draw_copies(input, plan) {
        Some((more_events, more_rows, pcie)) => {
            append_events(&mut events, more_events);
            append_rows(&mut rows, more_rows);
            pcie
        },
        None => {
            return Err(EmitError::CopyLaunch);
        },
    };
    append_events(&mut events, draw_ranges(input, plan));
    append_rows(&mut rows, ranges_to_rows(input, plan));
    let json_events: usize = events.len();
    assert(event_views(events@).len() == json_events);
    Ok(Timeline { events, rows, dependencies: Vec::new(), json_events, pcie_usage_launch_dependencies })
}

/// Draws a timeline. Everything that the records refer to must have a place on it.
pub fn emit_outputs(input: EmitInput<'_>) -> (outcome: Result<Timeline, EmitError>)
    requires
        placeable(input@),
    ensures
        drawn(input@, outcome),
{
    let plan = plan_timeline(&input);
    draw_planned(&input, &plan)
}

/// Draws a timeline if everything that the records refer to has a place on it.
pub fn try_emit_outputs(input: EmitInput<'_>) -> (outcome: Option<Result<Timeline, EmitError>>)
    ensures
        outcome is Some <==> placeable(input@),
        outcome matches Some(result) ==> drawn(input@, result),
{
    let plan = plan_timeline(&input);
    if is_placeable(&input, &plan) {
        Some(draw_planned(&input, &plan))
    } else {
        None
    }
}

} // verus!
