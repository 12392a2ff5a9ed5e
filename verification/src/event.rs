//! Timeline events, table rows and their arguments.
//!
//! Instants and durations are kept in whole nanoseconds; whoever writes them out
//! divides by a thousand to get the microseconds of the trace format.
use crate::text::{copied, opt_text, texts};
use vstd::prelude::*;

verus! {

/// The value of an argument.
#[derive(Debug, Clone, PartialEq)]
pub enum ArgValue {
    Int(i64),
    Count(u64),
    Text(String),
    MaybeText(Option<String>),
    Texts(Vec<String>),
    Ints(Vec<i64>),
    /// Nanoseconds, shown as microseconds.
    Micros(i64),
    /// An amount per nanosecond; zero when there is none.
    Rate(Option<(u64, i64)>),
}

#[derive(Debug, Clone, PartialEq)]
pub struct Arg {
    pub key: &'static str,
    pub value: ArgValue,
}

/// An event of the Chrome trace format.
#[derive(Debug, Clone, PartialEq)]
pub struct TraceEvent {
    pub name: String,
    pub ph: &'static str,
    pub cat: &'static str,
    pub ts_ns: i64,
    pub dur_ns: Option<i64>,
    pub tid: i64,
    pub pid: i64,
    pub args: Vec<Arg>,
    pub id: Option<u64>,
    pub bp: Option<&'static str>,
}

/// A row of the aligned event table.
#[derive(Debug, Clone, PartialEq)]
pub struct TraceRow {
    pub report: String,
    pub event_type: String,
    pub cat: &'static str,
    pub name: String,
    pub ph: &'static str,
    pub ts_ns: i64,
    pub dur_ns: Option<i64>,
    pub aligned_ns: i64,
    pub pid: String,
    pub tid: String,
    pub args: Vec<Arg>,
    pub event_id: Option<String>,
    pub launch_event_id: Option<String>,
    pub stream_id: Option<u64>,
    pub correlation_id: Option<u32>,
    pub stream_sequence: Option<u64>,
    pub depends_on_event_id: Option<String>,
    pub dependency_type: Option<String>,
    pub device_id: Option<i64>,
    pub metric_id: Option<u32>,
    pub metric_value: Option<i64>,
    pub metric_unit: Option<String>,
}

/// A row of the dependency table.
#[derive(Debug, Clone, PartialEq)]
pub struct DependencyRow {
    pub report: String,
    pub stream_id: u64,
    pub stream_sequence: u64,
    pub predecessor_event_id: String,
    pub predecessor_kernel: String,
    pub predecessor_ts_ns: i64,
    pub predecessor_dur_ns: i64,
    pub successor_event_id: String,
    pub successor_kernel: String,
    pub successor_ts_ns: i64,
    pub successor_dur_ns: i64,
    pub gap_ns: i64,
    pub dependency_type: String,
}

pub enum ValueView {
    Int(i64),
    Count(u64),
    Text(Seq<char>),
    MaybeText(Option<Seq<char>>),
    Texts(Seq<Seq<char>>),
    Ints(Seq<i64>),
    Micros(i64),
    Rate(Option<(u64, i64)>),
}

pub struct ArgView {
    pub key: Seq<char>,
    pub value: ValueView,
}

pub struct EventView {
    pub name: Seq<char>,
    pub ph: Seq<char>,
    pub cat: Seq<char>,
    pub ts_ns: i64,
    pub dur_ns: Option<i64>,
    pub tid: i64,
    pub pid: i64,
    pub args: Seq<ArgView>,
    pub id: Option<u64>,
    pub bp: Option<Seq<char>>,
}

pub struct RowView {
    pub report: Seq<char>,
    pub event_type: Seq<char>,
    pub cat: Seq<char>,
    pub name: Seq<char>,
    pub ph: Seq<char>,
    pub ts_ns: i64,
    pub dur_ns: Option<i64>,
    pub aligned_ns: i64,
    pub pid: Seq<char>,
    pub tid: Seq<char>,
    pub args: Seq<ArgView>,
    pub event_id: Option<Seq<char>>,
    pub launch_event_id: Option<Seq<char>>,
    pub stream_id: Option<u64>,
    pub correlation_id: Option<u32>,
    pub stream_sequence: Option<u64>,
    pub depends_on_event_id: Option<Seq<char>>,
    pub dependency_type: Option<Seq<char>>,
    pub device_id: Option<i64>,
    pub metric_id: Option<u32>,
    pub metric_value: Option<i64>,
    pub metric_unit: Option<Seq<char>>,
}

impl View for ArgValue {
    type V = ValueView;

    open spec fn view(&self) -> ValueView {
        match self {
            ArgValue::Int(n) => ValueView::Int(*n),
            ArgValue::Count(n) => ValueView::Count(*n),
            ArgValue::Text(t) => ValueView::Text(t@),
            ArgValue::MaybeText(t) => ValueView::MaybeText(opt_text(*t)),
            ArgValue::Texts(t) => ValueView::Texts(texts(t@)),
            ArgValue::Ints(v) => ValueView::Ints(v@),
            ArgValue::Micros(n) => ValueView::Micros(*n),
            ArgValue::Rate(r) => ValueView::Rate(*r),
        }
    }
}

impl View for Arg {
    type V = ArgView;

    open spec fn view(&self) -> ArgView {
        ArgView { key: self.key@, value: self.value@ }
    }
}

pub open spec fn arg_views(args: Seq<Arg>) -> Seq<ArgView> {
    Seq::new(args.len(), |i: int| args[i]@)
}

impl View for TraceEvent {
    type V = EventView;

    open spec fn view(&self) -> EventView {
        EventView {
            name: self.name@,
            ph: self.ph@,
            cat: self.cat@,
            ts_ns: self.ts_ns,
            dur_ns: self.dur_ns,
            tid: self.tid,
            pid: self.pid,
            args: arg_views(self.args@),
            id: self.id,
            bp: match self.bp {
                Some(t) => Some(t@),
                None => None,
            },
        }
    }
}

pub open spec fn event_views(events: Seq<TraceEvent>) -> Seq<EventView> {
    Seq::new(events.len(), |i: int| events[i]@)
}

impl View for TraceRow {
    type V = RowView;

    open spec fn view(&self) -> RowView {
        RowView {
            report: self.report@,
            event_type: self.event_type@,
            cat: self.cat@,
            name: self.name@,
            ph: self.ph@,
            ts_ns: self.ts_ns,
            dur_ns: self.dur_ns,
            aligned_ns: self.aligned_ns,
            pid: self.pid@,
            tid: self.tid@,
            args: arg_views(self.args@),
            event_id: opt_text(self.event_id),
            launch_event_id: opt_text(self.launch_event_id),
            stream_id: self.stream_id,
            correlation_id: self.correlation_id,
            stream_sequence: self.stream_sequence,
            depends_on_event_id: opt_text(self.depends_on_event_id),
            dependency_type: opt_text(self.dependency_type),
            device_id: self.device_id,
            metric_id: self.metric_id,
            metric_value: self.metric_value,
            metric_unit: opt_text(self.metric_unit),
        }
    }
}

pub open spec fn row_views(rows: Seq<TraceRow>) -> Seq<RowView> {
    Seq::new(rows.len(), |i: int| rows[i]@)
}

pub proof fn lemma_event_views_concat(a: Seq<TraceEvent>, b: Seq<TraceEvent>)
    ensures
        event_views(a + b) == event_views(a) + event_views(b),
{
    assert(event_views(a + b) =~= event_views(a) + event_views(b));
}

pub proof fn lemma_row_views_concat(a: Seq<TraceRow>, b: Seq<TraceRow>)
    ensures
        row_views(a + b) == row_views(a) + row_views(b),
{
    assert(row_views(a + b) =~= row_views(a) + row_views(b));
}

/// Appends a block of events.
pub fn append_events(out: &mut Vec<TraceEvent>, block: Vec<TraceEvent>)
    ensures
        event_views(final(out)@) == event_views(old(out)@) + event_views(block@),
{
    let mut block = block;
    proof {
        lemma_event_views_concat(out@, block@);
    }
    out.append(&mut block);
}

/// Appends a block of rows.
pub fn append_rows(out: &mut Vec<TraceRow>, block: Vec<TraceRow>)
    ensures
        row_views(final(out)@) == row_views(old(out)@) + row_views(block@),
{
    let mut block = block;
    proof {
        lemma_row_views_concat(out@, block@);
    }
    out.append(&mut block);
}

/// An argument of the given key and value.
pub open spec fn arg(key: Seq<char>, value: ValueView) -> ArgView {
    ArgView { key, value }
}

pub fn int_arg(key: &'static str, n: i64) -> (a: Arg)
    ensures
        a@ == arg(key@, ValueView::Int(n)),
{
    Arg { key, value: ArgValue::Int(n) }
}

pub fn count_arg(key: &'static str, n: u64) -> (a: Arg)
    ensures
        a@ == arg(key@, ValueView::Count(n)),
{
    Arg { key, value: ArgValue::Count(n) }
}

pub fn text_arg(key: &'static str, text: &str) -> (a: Arg)
    ensures
        a@ == arg(key@, ValueView::Text(text@)),
{
    Arg { key, value: ArgValue::Text(copied(text)) }
}

pub fn ints_arg(key: &'static str, ints: &[i64]) -> (a: Arg)
    ensures
        a@ == arg(key@, ValueView::Ints(ints@)),
{
    Arg { key, value: ArgValue::Ints(copied_ints(ints)) }
}

pub fn micros_arg(key: &'static str, ns: i64) -> (a: Arg)
    ensures
        a@ == arg(key@, ValueView::Micros(ns)),
{
    Arg { key, value: ArgValue::Micros(ns) }
}

pub fn rate_arg(key: &'static str, rate: Option<(u64, i64)>) -> (a: Arg)
    ensures
        a@ == arg(key@, ValueView::Rate(rate)),
{
    Arg { key, value: ArgValue::Rate(rate) }
}

pub fn maybe_text_arg(key: &'static str, text: &Option<String>) -> (a: Arg)
    ensures
        a@ == arg(key@, ValueView::MaybeText(opt_text(*text))),
{
    Arg { key, value: ArgValue::MaybeText(copied_option(text)) }
}

pub fn texts_arg(key: &'static str, list: &Vec<String>) -> (a: Arg)
    ensures
        a@ == arg(key@, ValueView::Texts(texts(list@))),
{
    Arg { key, value: ArgValue::Texts(copied_texts(list)) }
}

/// A copy of an optional text.
pub fn copied_option(text: &Option<String>) -> (r: Option<String>)
    ensures
        opt_text(r) == opt_text(*text),
{
    match text {
        Some(t) => Some(copied(t.as_str())),
        None => None,
    }
}

/// A copy of a list of arguments.
pub fn copied_args(args: &Vec<Arg>) -> (r: Vec<Arg>)
    ensures
        arg_views(r@) == arg_views(args@),
{
    let mut r: Vec<Arg> = Vec::new();
    for i in 0..args.len()
        invariant
            r@.len() == i,
            forall|j: int| 0 <= j < i ==> (#[trigger] r@[j])@ == args@[j]@,
    {
        let key = args[i].key;
        let a = match &args[i].value {
            ArgValue::Int(n) => int_arg(key, *n),
            ArgValue::Count(n) => count_arg(key, *n),
            ArgValue::Text(t) => text_arg(key, t.as_str()),
            ArgValue::MaybeText(t) => maybe_text_arg(key, t),
            ArgValue::Texts(t) => texts_arg(key, t),
            ArgValue::Ints(v) => ints_arg(key, v.as_slice()),
            ArgValue::Micros(n) => micros_arg(key, *n),
            ArgValue::Rate(rate) => rate_arg(key, *rate),
        };
        r.push(a);
    }
    assert(arg_views(r@) =~= arg_views(args@));
    r
}

/// A complete slice.
pub open spec fn slice(
    name: Seq<char>,
    cat: Seq<char>,
    ts_ns: i64,
    dur_ns: i64,
    tid: i64,
    pid: i64,
    args: Seq<ArgView>,
) -> EventView {
    EventView { name, ph: "X"@, cat, ts_ns, dur_ns: Some(dur_ns), tid, pid, args, id: None, bp: None }
}

pub fn make_slice(
    name: &str,
    cat: &'static str,
    ts_ns: i64,
    dur_ns: i64,
    tid: i64,
    pid: i64,
    args: Vec<Arg>,
) -> (e: TraceEvent)
    ensures
        e@ == slice(name@, cat@, ts_ns, dur_ns, tid, pid, arg_views(args@)),
{
    TraceEvent { name: copied(name), ph: "X", cat, ts_ns, dur_ns: Some(dur_ns), tid, pid, args, id: None, bp: None }
}

/// A point of the timeline: an instant on a track of a process.
#[derive(Clone, Copy)]
pub struct Spot {
    pub ts_ns: i64,
    pub tid: i64,
    pub pid: i64,
}

/// The start and the finish of a flow arrow, joined by their identifier.
pub open spec fn arrow(
    name: Seq<char>,
    cat: Seq<char>,
    from: Spot,
    to: Spot,
    args: Seq<ArgView>,
    id: u64,
) -> Seq<EventView> {
    seq![
        EventView {
            name,
            ph: "s"@,
            cat,
            ts_ns: from.ts_ns,
            dur_ns: None,
            tid: from.tid,
            pid: from.pid,
            args,
            id: Some(id),
            bp: None,
        },
        EventView {
            name,
            ph: "f"@,
            cat,
            ts_ns: to.ts_ns,
            dur_ns: None,
            tid: to.tid,
            pid: to.pid,
            args,
            id: Some(id),
            bp: Some("e"@),
        },
    ]
}

pub fn make_arrow(name: &str, cat: &'static str, from: Spot, to: Spot, args: Vec<Arg>, id: u64) -> (events: Vec<
    TraceEvent,
>)
    ensures
        event_views(events@) == arrow(name@, cat@, from, to, arg_views(args@), id),
{
    let start_args = copied_args(&args);
    let events = vec![
        TraceEvent {
            name: copied(name),
            ph: "s",
            cat,
            ts_ns: from.ts_ns,
            dur_ns: None,
            tid: from.tid,
            pid: from.pid,
            args: start_args,
            id: Some(id),
            bp: None,
        },
        TraceEvent {
            name: copied(name),
            ph: "f",
            cat,
            ts_ns: to.ts_ns,
            dur_ns: None,
            tid: to.tid,
            pid: to.pid,
            args,
            id: Some(id),
            bp: Some("e"),
        },
    ];
    assert(event_views(events@) =~= arrow(name@, cat@, from, to, arg_views(args@), id));
    events
}

fn copied_texts(list: &Vec<String>) -> (r: Vec<String>)
    ensures
        texts(r@) == texts(list@),
{
    let mut r: Vec<String> = Vec::new();
    for i in 0..list.len()
        invariant
            r@.len() == i,
            forall|j: int| 0 <= j < i ==> (#[trigger] r@[j])@ == list@[j]@,
    {
        r.push(copied(list[i].as_str()));
    }
    assert(texts(r@) =~= texts(list@));
    r
}

fn copied_ints(list: &[i64]) -> (r: Vec<i64>)
    ensures
        r@ == list@,
{
    let mut r: Vec<i64> = Vec::new();
    for i in 0..list.len()
        invariant
            r@ == list@.take(i as int),
    {
        r.push(list[i]);
        assert(r@ =~= list@.take(i + 1));
    }
    assert(list@.take(list@.len() as int) =~= list@);
    r
}

} // verus!
