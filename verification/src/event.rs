//! One sounding note on the timeline: a unique identifier, a pitch, a start
//! position and a duration. Timeline placement orders events by start
//! position, with the identifier as tie-breaker so that two simultaneous
//! events never collide.

use vstd::prelude::*;

use crate::pitch::Note;
use crate::pulse::Pulse;

verus! {

/// One sounding note.
#[derive(Clone, Copy, Debug, PartialEq, Eq, Structural)]
pub struct Event {
    pub event_id: u32,
    pub note: Note,
    pub duration: Pulse,
    pub start: Pulse,
}

/// The mathematical model of an event: identifier, pitch and unbounded
/// start and duration tick counts.
pub ghost struct EventV {
    pub id: int,
    pub note: Note,
    pub start: int,
    pub dur: int,
}

impl View for Event {
    type V = EventV;

    open spec fn view(&self) -> EventV {
        EventV {
            id: self.event_id as int,
            note: self.note,
            start: self.start.0 as int,
            dur: self.duration.0 as int,
        }
    }
}

/// The strict timeline order: by start position, then by identifier.
pub open spec fn ev_lt(a: EventV, b: EventV) -> bool {
    a.start < b.start || (a.start == b.start && a.id < b.id)
}

/// The reflexive timeline order on placement keys.
pub open spec fn ev_le(a: EventV, b: EventV) -> bool {
    a.start < b.start || (a.start == b.start && a.id <= b.id)
}

impl Event {
    /// The unique identifier of this event.
    pub fn id(&self) -> (r: u32)
        ensures
            r as int == self@.id,
    {
        self.event_id
    }

    /// Whether this event is placed strictly before `other` on the
    /// timeline: earlier start, or equal start and smaller identifier.
    pub fn key_lt(&self, other: &Event) -> (r: bool)
        ensures
            r == ev_lt(self@, other@),
    {
        self.start.0 < other.start.0 || (self.start.0 == other.start.0 && self.event_id
            < other.event_id)
    }
}

} // verus!
