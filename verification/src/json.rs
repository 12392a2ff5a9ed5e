//! Frames serialized events as one JSON array.
use crate::seqs::concat;
use crate::text::same_text;
use vstd::prelude::*;

verus! {

/// Writes a JSON array piece by piece: each method returns what to write before the
/// next event or at the end.
#[derive(Debug)]
pub struct JsonArrayWriter {
    pub gzip: bool,
    pub first: bool,
}

/// What separates an event from what stands before it.
pub open spec fn separator(first: bool) -> Seq<char> {
    if first {
        ""@
    } else {
        ","@
    }
}

impl JsonArrayWriter {
    /// Starts an array, compressed if the file name ends in `gz`, and returns its
    /// opening bracket.
    pub fn create(extension: Option<&str>) -> (started: (JsonArrayWriter, &'static str))
        ensures
            started.0.first,
            started.0.gzip == (extension matches Some(e) && e@ == "gz"@),
            started.1@ == "["@,
    {
        let gzip = match extension {
            Some(e) => same_text(e, "gz"),
            None => false,
        };
        (JsonArrayWriter { gzip, first: true }, "[")
    }

    /// What to write before the next event.
    pub fn event(&mut self) -> (before: &'static str)
        ensures
            before@ == separator(old(self).first),
            !final(self).first,
            final(self).gzip == old(self).gzip,
    {
        let before = if self.first {
            ""
        } else {
            ","
        };
        self.first = false;
        before
    }

    /// What to write after the last event.
    pub fn finish(self) -> (after: &'static str)
        ensures
            after@ == "]\n"@,
    {
        "]\n"
    }
}

/// The text of an array whose events are written in turn: the opening bracket, each
/// event after its separator, and the closing bracket.
pub open spec fn written(events: Seq<Seq<char>>) -> Seq<char> {
    "["@ + concat(events.len() as int, |i: int| separator(i == 0) + events[i]) + "]\n"@
}

/// The events, with a comma between each two.
pub open spec fn comma_joined(events: Seq<Seq<char>>) -> Seq<char>
    decreases events.len(),
{
    if events.len() == 0 {
        Seq::empty()
    } else if events.len() == 1 {
        events[0]
    } else {
        comma_joined(events.drop_last()) + ","@ + events.last()
    }
}

/// What is written is one JSON array of the events: they stand in brackets, in order,
/// with a comma between each two and no other.
pub proof fn lemma_written_is_an_array(events: Seq<Seq<char>>)
    ensures
        written(events) == "["@ + comma_joined(events) + "]\n"@,
{
    lemma_body(events, events.len() as int);
    assert(events.take(events.len() as int) =~= events);
}

proof fn lemma_body(events: Seq<Seq<char>>, n: int)
    requires
        0 <= n <= events.len(),
    ensures
        concat(n, |i: int| separator(i == 0) + events[i]) == comma_joined(events.take(n)),
    decreases n,
{
    let f = |i: int| separator(i == 0) + events[i];
    reveal_strlit("");
    if n > 0 {
        lemma_body(events, n - 1);
        let now = events.take(n);
        assert(now.drop_last() =~= events.take(n - 1));
        if n == 1 {
            assert(concat(1, f) =~= concat(0, f) + f(0));
            assert(f(0) =~= events[0]);
            assert(concat(1, f) =~= events[0]);
        } else {
            assert(concat(n, f) =~= concat(n - 1, f) + ","@ + events[n - 1]);
        }
    }
}

} // verus!
