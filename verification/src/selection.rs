//! Selections: begin/end ranges over the timeline that act both as edit
//! cursors and as edit-scope filters.

use vstd::prelude::*;

use crate::pulse::Location;
use crate::pulse::Pulse;

verus! {

/// A begin/end range over the timeline. Every command keeps
/// `begin <= end`; a command that would violate it swaps the two bounds
/// instead of failing.
#[derive(Clone, Copy, Debug, PartialEq, Eq, Structural)]
pub struct Selection {
    pub begin: Location,
    pub end: Location,
}

/// The mathematical model of a selection: its two bounds as unbounded
/// tick counts.
pub ghost struct SelV {
    pub begin: int,
    pub end: int,
}

impl View for Selection {
    type V = SelV;

    open spec fn view(&self) -> SelV {
        SelV { begin: self.begin.0.0 as int, end: self.end.0.0 as int }
    }
}

impl Default for Selection {
    /// The empty range at the origin of the timeline.
    fn default() -> (r: Self)
        ensures
            r@ == (SelV { begin: 0, end: 0 }),
    {
        Selection { begin: Location(Pulse(0)), end: Location(Pulse(0)) }
    }
}

/// The ordered list of selections a session owns.
#[derive(Clone, Debug, PartialEq, Eq)]
pub struct Selections(pub Vec<Selection>);

impl View for Selections {
    type V = Seq<SelV>;

    open spec fn view(&self) -> Seq<SelV> {
        self.0@.map_values(|s: Selection| s@)
    }
}

impl Default for Selections {
    /// No selections at all. A fresh session replaces this with one
    /// default selection at the origin.
    fn default() -> (r: Self)
        ensures
            r@ == Seq::<SelV>::empty(),
    {
        Selections(Vec::new())
    }
}

} // verus!
