//! Notes, timed events and the song that holds them.

use crate::order::{lemma_sorted_keys, lemma_stable_order, sort_by_keys, sorted_by, stable_order};
use vstd::prelude::*;

verus! {

/// A pitch together with the velocity it is struck with.
#[derive(Debug, Clone, Copy, PartialEq, Eq, Structural)]
pub struct Note {
    pub midi: u8,
    pub velocity: u8,
}

/// One note sounding from `time_us` for `duration_us` microseconds.
#[derive(Debug, Clone, Copy, PartialEq, Eq, Structural)]
pub struct Event {
    pub note: Note,
    pub time_us: u64,
    pub duration_us: u64,
}

impl Event {
    /// The instant at which the event stops sounding.
    pub open spec fn end(self) -> int {
        self.time_us + self.duration_us
    }

    /// The end instant is itself a representable time.
    pub open spec fn wf(self) -> bool {
        self.end() <= u64::MAX
    }

    /// The instant at which the event stops sounding.
    pub fn end_us(&self) -> (r: u64)
        requires
            self.wf(),
        ensures
            r == self.end(),
    {
        self.time_us + self.duration_us
    }
}

/// What is known about a song besides its notes.
#[derive(Debug, Clone)]
pub struct Metadata {
    pub title: Option<String>,
    /// Microseconds per quarter note, for display.
    pub tempo_mpqn: Option<u32>,
}

/// A timeline of events with its metadata.
#[derive(Debug, Clone)]
pub struct Song {
    pub metadata: Metadata,
    pub events: Vec<Event>,
}

/// Every event of the sequence ends at a representable time.
pub open spec fn all_wf(events: Seq<Event>) -> bool {
    forall|i: int| 0 <= i < events.len() ==> (#[trigger] events[i]).wf()
}

/// The sort key of each event: its start.
pub open spec fn time_keys(events: Seq<Event>) -> Seq<u128> {
    Seq::new(events.len(), |i: int| events[i].time_us as u128)
}

/// The events in order of their start; events that start together keep
/// their order.
pub open spec fn by_time(events: Seq<Event>) -> Seq<Event> {
    sorted_by(events, time_keys(events))
}

/// No event starts before an earlier one.
pub open spec fn starts_in_order(events: Seq<Event>) -> bool {
    forall|i: int, j: int|
        0 <= i <= j < events.len() ==> (#[trigger] events[i]).time_us <= (
        #[trigger] events[j]).time_us
}

/// Sorting by time keeps every event, and leaves the starts in order.
pub proof fn lemma_by_time(events: Seq<Event>)
    requires
        events.len() <= usize::MAX,
    ensures
        by_time(events).len() == events.len(),
        starts_in_order(by_time(events)),
        all_wf(events) ==> all_wf(by_time(events)),
        forall|k: int|
            0 <= k < events.len() ==> stable_order(time_keys(events))[k] < events.len()
                && #[trigger] by_time(events)[k] == events[stable_order(
                time_keys(events),
            )[k] as int],
{
    let keys = time_keys(events);
    lemma_stable_order(keys);
    let sorted = by_time(events);
    assert forall|i: int, j: int| 0 <= i <= j < sorted.len() implies (#[trigger] sorted[i]).time_us
        <= (#[trigger] sorted[j]).time_us by {
        lemma_sorted_keys(keys, i, j);
    }
}

/// Sorts events by their start.
pub fn sort_by_time(events: &Vec<Event>) -> (sorted: Vec<Event>)
    ensures
        sorted@ == by_time(events@),
        sorted.len() == events.len(),
        starts_in_order(sorted@),
        all_wf(events@) ==> all_wf(sorted@),
{
    let mut keys: Vec<u128> = Vec::new();
    let mut i: usize = 0;
    while i < events.len()
        invariant
            i <= events.len(),
            keys@ == time_keys(events@.take(i as int)),
        decreases events.len() - i,
    {
        keys.push(events[i].time_us as u128);
        proof {
            assert(keys@ =~= time_keys(events@.take(i + 1)));
        }
        i += 1;
    }
    proof {
        assert(events@.take(i as int) == events@);
        assert(events.len() <= usize::MAX);
        lemma_by_time(events@);
    }
    sort_by_keys(events, &keys)
}

} // verus!
