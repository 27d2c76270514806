//! The integer sub-beat time unit. Four pulses stand for one quarter note
//! and sixteen for one whole note.

use vstd::prelude::*;

verus! {

/// A signed tick count. Positions and durations on the timeline are both
/// expressed in pulses. Values are expected to be non-negative in normal
/// use, but the type itself does not enforce that.
#[derive(Clone, Copy, Debug, PartialEq, Eq, Structural)]
pub struct Pulse(pub i32);

/// A position on the timeline, measured in pulses from its origin.
#[derive(Clone, Copy, Debug, PartialEq, Eq, Structural)]
pub struct Location(pub Pulse);

impl Pulse {
    /// The sum of two pulse counts.
    pub fn plus(self, other: Pulse) -> (r: Pulse)
        requires
            i32::MIN <= self.0 + other.0 <= i32::MAX,
        ensures
            r.0 == self.0 + other.0,
    {
        Pulse(self.0 + other.0)
    }

    /// The difference of two pulse counts.
    pub fn minus(self, other: Pulse) -> (r: Pulse)
        requires
            i32::MIN <= self.0 - other.0 <= i32::MAX,
        ensures
            r.0 == self.0 - other.0,
    {
        Pulse(self.0 - other.0)
    }
}

impl Default for Pulse {
    /// Zero pulses.
    fn default() -> (r: Self)
        ensures
            r.0 == 0,
    {
        Pulse(0)
    }
}

impl Default for Location {
    /// The origin of the timeline.
    fn default() -> (r: Self)
        ensures
            r.0.0 == 0,
    {
        Location(Pulse(0))
    }
}

} // verus!
