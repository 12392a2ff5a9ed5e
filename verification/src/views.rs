//! What is said of events, rows and arguments is said of their fields.
use crate::event::{arg_views, event_views, row_views, Arg, ArgValue, TraceEvent, TraceRow, ValueView};
use vstd::prelude::*;

verus! {

/// The text of a string that may be absent.
pub open spec fn chars_of(text: Option<String>) -> Option<Seq<char>> {
    match text {
        Some(t) => Some(t@),
        None => None,
    }
}

/// The value that an argument holds.
pub open spec fn says(value: ArgValue, view: ValueView) -> bool {
    match value {
        ArgValue::Int(n) => view == ValueView::Int(n),
        ArgValue::Count(n) => view == ValueView::Count(n),
        ArgValue::Text(t) => view == ValueView::Text(t@),
        ArgValue::MaybeText(t) => view == ValueView::MaybeText(chars_of(t)),
        ArgValue::Texts(list) => (view matches ValueView::Texts(seen) && seen.len() == list@.len() && forall|i: int|
            0 <= i < seen.len() ==> #[trigger] seen[i] == list@[i]@),
        ArgValue::Ints(list) => view == ValueView::Ints(list@),
        ArgValue::Micros(n) => view == ValueView::Micros(n),
        ArgValue::Rate(r) => view == ValueView::Rate(r),
    }
}

/// Arguments are seen one for one, with their keys and values.
pub proof fn lemma_arguments_are_seen(args: Seq<Arg>, i: int)
    requires
        0 <= i < args.len(),
    ensures
        arg_views(args).len() == args.len(),
        arg_views(args)[i].key == args[i].key@,
        says(args[i].value, arg_views(args)[i].value),
{
}

/// Events are seen one for one, field by field.
pub proof fn lemma_events_are_seen(events: Seq<TraceEvent>, i: int)
    requires
        0 <= i < events.len(),
    ensures
        event_views(events).len() == events.len(),
        event_views(events)[i].name == events[i].name@,
        event_views(events)[i].ph == events[i].ph@,
        event_views(events)[i].cat == events[i].cat@,
        event_views(events)[i].ts_ns == events[i].ts_ns,
        event_views(events)[i].dur_ns == events[i].dur_ns,
        event_views(events)[i].tid == events[i].tid,
        event_views(events)[i].pid == events[i].pid,
        event_views(events)[i].args == arg_views(events[i].args@),
        event_views(events)[i].id == events[i].id,
        match events[i].bp {
            Some(t) => event_views(events)[i].bp == Some(t@),
            None => event_views(events)[i].bp is None,
        },
{
}

/// Rows are seen one for one, field by field.
pub proof fn lemma_rows_are_seen(rows: Seq<TraceRow>, i: int)
    requires
        0 <= i < rows.len(),
    ensures
        row_views(rows).len() == rows.len(),
        row_views(rows)[i].report == rows[i].report@,
        row_views(rows)[i].event_type == rows[i].event_type@,
        row_views(rows)[i].cat == rows[i].cat@,
        row_views(rows)[i].name == rows[i].name@,
        row_views(rows)[i].ph == rows[i].ph@,
        row_views(rows)[i].ts_ns == rows[i].ts_ns,
        row_views(rows)[i].dur_ns == rows[i].dur_ns,
        row_views(rows)[i].aligned_ns == rows[i].aligned_ns,
        row_views(rows)[i].pid == rows[i].pid@,
        row_views(rows)[i].tid == rows[i].tid@,
        row_views(rows)[i].args == arg_views(rows[i].args@),
        row_views(rows)[i].event_id == chars_of(rows[i].event_id),
        row_views(rows)[i].launch_event_id == chars_of(rows[i].launch_event_id),
        row_views(rows)[i].stream_id == rows[i].stream_id,
        row_views(rows)[i].correlation_id == rows[i].correlation_id,
        row_views(rows)[i].stream_sequence == rows[i].stream_sequence,
        row_views(rows)[i].depends_on_event_id == chars_of(rows[i].depends_on_event_id),
        row_views(rows)[i].dependency_type == chars_of(rows[i].dependency_type),
        row_views(rows)[i].device_id == rows[i].device_id,
        row_views(rows)[i].metric_id == rows[i].metric_id,
        row_views(rows)[i].metric_value == rows[i].metric_value,
        row_views(rows)[i].metric_unit == chars_of(rows[i].metric_unit),
{
}

} // verus!
