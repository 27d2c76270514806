//! The editing session: it owns the timeline, the selections and the
//! identifier allocator, and is the unit every edit command operates on.

use vstd::multiset::Multiset;
use vstd::prelude::*;

use crate::event::Event;
use crate::event::EventV;
use crate::pitch::Note;
use crate::pulse::Location;
use crate::pulse::Pulse;
use crate::score::evs;
use crate::score::insert_sorted;
use crate::score::insort;
use crate::score::lemma_insort_ensures;
use crate::score::lemma_resort_from_ensures;
use crate::score::lemma_resort_from_push;
use crate::score::resort;
use crate::score::resort_from;
use crate::score::Score;
use crate::selection::SelV;
use crate::selection::Selection;
use crate::selection::Selections;

verus! {

/// Why a command could not be applied. A failed command leaves the
/// session exactly as it was.
#[derive(Clone, Copy, Debug, PartialEq, Eq, Structural)]
pub enum EditError {
    /// A command referenced a selection index that does not exist.
    SelectionIndexOutOfRange,
    /// An event-count delta was requested but the timeline has no events
    /// to anchor against.
    EmptyTimelineNavigation,
    /// The export projection was asked to notate a pulse duration with no
    /// defined notated value.
    UnrepresentableDuration,
    /// A transposition would step a pitch outside the encodable semitone
    /// range.
    PitchOutOfRange,
    /// A shift would move a position, or the identifier allocator, outside
    /// the range of the integer that stores it.
    ArithmeticOverflow,
}

/// The editing session: timeline, selections and identifier allocator.
#[derive(Clone, Debug)]
pub struct Context {
    pub score: Score,
    pub selections: Selections,
    pub next_id: u32,
}

/// The mathematical model of a session.
pub ghost struct CtxV {
    pub events: Seq<EventV>,
    pub sels: Seq<SelV>,
    pub next_id: int,
}

impl View for Context {
    type V = CtxV;

    open spec fn view(&self) -> CtxV {
        CtxV { events: self.score@, sels: self.selections@, next_id: self.next_id as int }
    }
}

impl Default for Context {
    /// An empty timeline, exactly one default selection at the origin,
    /// and identifiers allocated from zero.
    fn default() -> (r: Self)
        ensures
            r@ == (CtxV { events: Seq::<EventV>::empty(), sels: seq![SelV { begin: 0, end: 0 }], next_id: 0 }),
    {
        let mut sels: Vec<Selection> = Vec::new();
        sels.push(Selection { begin: Location(Pulse(0)), end: Location(Pulse(0)) });
        let r = Context {
            score: Score { events: Vec::new() },
            selections: Selections(sels),
            next_id: 0,
        };
        proof {
            assert(r@.events =~= Seq::<EventV>::empty());
            assert(r@.sels =~= seq![SelV { begin: 0, end: 0 }]);
        }
        r
    }
}

/// An event start shifted forward by `d` when it lies at or after `at`.
pub open spec fn shifted_event(e: EventV, at: int, d: int) -> EventV {
    if e.start >= at {
        EventV { id: e.id, note: e.note, start: e.start + d, dur: e.dur }
    } else {
        e
    }
}

/// A selection whose bounds each shift forward by `d` when they lie at or
/// after `at`, so that the selection keeps tracking the same logical point
/// in the music.
pub open spec fn shifted_sel(s: SelV, at: int, d: int) -> SelV {
    SelV {
        begin: if s.begin >= at {
            s.begin + d
        } else {
            s.begin
        },
        end: if s.end >= at {
            s.end + d
        } else {
            s.end
        },
    }
}

/// What inserting a fresh event of the given pitch and duration at `at`
/// does to a session: every event at or after `at` shifts forward by the
/// new event's duration, every selection bound at or after `at` shifts
/// with them, the new event takes the next free identifier, and the
/// timeline is rebuilt in ascending order.
pub open spec fn insert_spec(c: CtxV, at: int, note: Note, dur: int) -> CtxV {
    CtxV {
        events: insort(
            resort(c.events.map_values(|e: EventV| shifted_event(e, at, dur))),
            EventV { id: c.next_id, note: note, start: at, dur: dur },
        ),
        sels: c.sels.map_values(|s: SelV| shifted_sel(s, at, dur)),
        next_id: c.next_id + 1,
    }
}

/// A well-formed session model: the timeline ascending by (start,
/// identifier), identifiers unique and all below the allocator's counter,
/// and at least one selection, each with `begin <= end`.
pub open spec fn wf_ctx(c: CtxV) -> bool {
    &&& crate::score::sorted_by_key(c.events)
    &&& crate::score::uniq_ids(c.events)
    &&& forall|i: int| 0 <= i < c.events.len() ==> (#[trigger] c.events[i]).id < c.next_id
    &&& c.sels.len() >= 1
    &&& forall|i: int| 0 <= i < c.sels.len() ==> (#[trigger] c.sels[i]).begin <= c.sels[i].end
}

/// An event start that the timeline's storage can hold.
pub open spec fn fits_ev(e: EventV) -> bool {
    i32::MIN <= e.start <= i32::MAX
}

/// Selection bounds that the session's storage can hold.
pub open spec fn fits_sel(s: SelV) -> bool {
    &&& i32::MIN <= s.begin <= i32::MAX
    &&& i32::MIN <= s.end <= i32::MAX
}

/// Whether every position and counter of a session model fits the machine
/// integer that stores it.
pub open spec fn ctx_fits(c: CtxV) -> bool {
    &&& forall|i: int| 0 <= i < c.events.len() ==> fits_ev(#[trigger] c.events[i])
    &&& forall|i: int| 0 <= i < c.sels.len() ==> fits_sel(#[trigger] c.sels[i])
    &&& 0 <= c.next_id <= u32::MAX
}

/// The model of a live session always fits: it is read off machine
/// integers.
pub proof fn lemma_view_fits(c: &Context)
    ensures
        ctx_fits(c@),
{
    assert forall|i: int| 0 <= i < c@.events.len() implies fits_ev(#[trigger] c@.events[i]) by {
        assert(c@.events[i] == c.score.events@[i]@);
    }
    assert forall|i: int| 0 <= i < c@.sels.len() implies fits_sel(#[trigger] c@.sels[i]) by {
        assert(c@.sels[i] == c.selections.0@[i]@);
    }
}

/// The contents of the timeline after an insertion: every old event
/// shifted, plus the fresh event.
pub proof fn lemma_insert_spec_multiset(c: CtxV, at: int, note: Note, dur: int)
    ensures
        insert_spec(c, at, note, dur).events.to_multiset() == c.events.map_values(
            |e: EventV| shifted_event(e, at, dur),
        ).to_multiset().insert(EventV { id: c.next_id, note: note, start: at, dur: dur }),
        insert_spec(c, at, note, dur).events.len() == c.events.len() + 1,
{
    broadcast use vstd::multiset::group_multiset_axioms;

    let shifted = c.events.map_values(|e: EventV| shifted_event(e, at, dur));
    let fresh = EventV { id: c.next_id, note: note, start: at, dur: dur };
    lemma_resort_from_ensures(Seq::empty(), shifted);
    lemma_insort_ensures(resort(shifted), fresh);
    Seq::<EventV>::empty().to_multiset_ensures();
    assert(Seq::<EventV>::empty().to_multiset() =~= Multiset::<EventV>::empty());
    assert(resort(shifted).to_multiset() =~= shifted.to_multiset());
}

/// If some shifted event start cannot be stored, the insertion result
/// does not fit.
pub proof fn lemma_insert_unfit_event(c: CtxV, at: int, note: Note, dur: int, k: int)
    requires
        0 <= k < c.events.len(),
        !fits_ev(shifted_event(c.events[k], at, dur)),
    ensures
        !ctx_fits(insert_spec(c, at, note, dur)),
{
    broadcast use vstd::multiset::group_multiset_axioms;

    let shifted = c.events.map_values(|e: EventV| shifted_event(e, at, dur));
    let bad = shifted_event(c.events[k], at, dur);
    let result = insert_spec(c, at, note, dur).events;
    lemma_insert_spec_multiset(c, at, note, dur);
    shifted.to_multiset_ensures();
    result.to_multiset_ensures();
    assert(shifted[k] == bad);
    assert(shifted.contains(bad));
    assert(result.to_multiset().count(bad) > 0);
    assert(result.contains(bad));
    let j = choose|j: int| 0 <= j < result.len() && result[j] == bad;
    assert(!fits_ev(result[j]));
}

/// If every shifted start, every shifted selection bound and the stepped
/// identifier counter are storable, the insertion result fits.
pub proof fn lemma_insert_fit(c: CtxV, at: int, note: Note, dur: int)
    requires
        forall|k: int|
            0 <= k < c.events.len() ==> fits_ev(shifted_event(#[trigger] c.events[k], at, dur)),
        forall|k: int|
            0 <= k < c.sels.len() ==> fits_sel(shifted_sel(#[trigger] c.sels[k], at, dur)),
        i32::MIN <= at <= i32::MAX,
        0 <= c.next_id,
        c.next_id + 1 <= u32::MAX,
    ensures
        ctx_fits(insert_spec(c, at, note, dur)),
{
    broadcast use vstd::multiset::group_multiset_axioms;

    let shifted = c.events.map_values(|e: EventV| shifted_event(e, at, dur));
    let fresh = EventV { id: c.next_id, note: note, start: at, dur: dur };
    let result = insert_spec(c, at, note, dur);
    lemma_insert_spec_multiset(c, at, note, dur);
    shifted.to_multiset_ensures();
    result.events.to_multiset_ensures();
    assert forall|i: int| 0 <= i < result.events.len() implies fits_ev(
        #[trigger] result.events[i],
    ) by {
        let x = result.events[i];
        assert(result.events.contains(x));
        assert(result.events.to_multiset().count(x) > 0);
        if x != fresh {
            assert(shifted.to_multiset().count(x) > 0);
            assert(shifted.contains(x));
            let k = choose|k: int| 0 <= k < shifted.len() && shifted[k] == x;
            assert(shifted[k] == shifted_event(c.events[k], at, dur));
        }
    }
}

/// Whether an event's start lies inside a selection's range, bounds
/// included.
pub open spec fn ev_in_sel(e: EventV, s: SelV) -> bool {
    s.begin <= e.start <= s.end
}

impl Context {
    /// Places a fresh event at `location` and shifts every event, and
    /// every selection bound, at or after that position forward by the new
    /// event's duration. The new event takes the next free identifier; the
    /// caller's identifier on `event` is ignored. When a shifted position
    /// or the identifier counter would leave its range, nothing changes
    /// and the overflow is reported.
    pub fn insert_event_at_location(&mut self, location: Location, event: Event) -> (r: Result<
        (),
        EditError,
    >)
        ensures
            ({
                let c = insert_spec(
                    old(self)@,
                    location.0.0 as int,
                    event.note,
                    event.duration.0 as int,
                );
                if ctx_fits(c) {
                    r == Ok::<(), EditError>(()) && final(self)@ == c
                } else {
                    r == Err::<(), EditError>(EditError::ArithmeticOverflow) && *final(self)
                        == *old(self)
                }
            }),
    {
        let at: i32 = location.0.0;
        let d: i32 = event.duration.0;
        let ghost c0 = self@;
        let ghost at_i = at as int;
        let ghost d_i = d as int;
        let ghost shifted = c0.events.map_values(|e: EventV| shifted_event(e, at_i, d_i));

        let n = self.score.events.len();
        let mut new_events: Vec<Event> = Vec::new();
        let mut i: usize = 0;
        while i < n
            invariant
                *self == *old(self),
                c0 == self@,
                at_i == at as int,
                d_i == d as int,
                shifted == c0.events.map_values(|e: EventV| shifted_event(e, at_i, d_i)),
                n == self.score.events.len(),
                0 <= i <= n,
                evs(new_events@) == resort_from(Seq::<EventV>::empty(), shifted.take(i as int)),
                forall|k: int| 0 <= k < i ==> fits_ev(#[trigger] shifted[k]),
            decreases n - i,
        {
            let e = self.score.events[i];
            proof {
                assert(c0.events[i as int] == e@);
                assert(shifted[i as int] == shifted_event(e@, at_i, d_i));
            }
            let mut ne = e;
            if e.start.0 >= at {
                let ns: i64 = e.start.0 as i64 + d as i64;
                if ns < i32::MIN as i64 || ns > i32::MAX as i64 {
                    proof {
                        lemma_insert_unfit_event(c0, at_i, event.note, d_i, i as int);
                    }
                    return Err(EditError::ArithmeticOverflow);
                }
                ne.start = Pulse(ns as i32);
            }
            proof {
                assert(ne@ == shifted[i as int]);
                lemma_resort_from_push(Seq::<EventV>::empty(), shifted.take(i as int), shifted[i as int]);
                assert(shifted.take(i as int + 1) =~= shifted.take(i as int).push(
                    shifted[i as int],
                ));
            }
            insert_sorted(&mut new_events, ne);
            i = i + 1;
        }

        let ghost shifted_sels = c0.sels.map_values(|s: SelV| shifted_sel(s, at_i, d_i));
        let m = self.selections.0.len();
        let mut new_sels: Vec<Selection> = Vec::new();
        let mut j: usize = 0;
        while j < m
            invariant
                *self == *old(self),
                c0 == self@,
                at_i == at as int,
                d_i == d as int,
                shifted_sels == c0.sels.map_values(|s: SelV| shifted_sel(s, at_i, d_i)),
                m == self.selections.0.len(),
                0 <= j <= m,
                new_sels@.map_values(|s: Selection| s@) == shifted_sels.take(j as int),
                forall|k: int| 0 <= k < j ==> fits_sel(#[trigger] shifted_sels[k]),
            decreases m - j,
        {
            let s = self.selections.0[j];
            proof {
                assert(c0.sels[j as int] == s@);
                assert(shifted_sels[j as int] == shifted_sel(s@, at_i, d_i));
            }
            let mut nb: i32 = s.begin.0.0;
            if nb >= at {
                let v: i64 = nb as i64 + d as i64;
                if v < i32::MIN as i64 || v > i32::MAX as i64 {
                    proof {
                        let cres = insert_spec(c0, at_i, event.note, d_i);
                        assert(cres.sels.len() == c0.sels.len());
                        assert(cres.sels[j as int] == shifted_sel(c0.sels[j as int], at_i, d_i));
                        assert(!fits_sel(cres.sels[j as int]));
                        assert(!ctx_fits(cres));
                    }
                    return Err(EditError::ArithmeticOverflow);
                }
                nb = v as i32;
            }
            let mut ne_: i32 = s.end.0.0;
            if ne_ >= at {
                let v: i64 = ne_ as i64 + d as i64;
                if v < i32::MIN as i64 || v > i32::MAX as i64 {
                    proof {
                        let cres = insert_spec(c0, at_i, event.note, d_i);
                        assert(cres.sels.len() == c0.sels.len());
                        assert(cres.sels[j as int] == shifted_sel(c0.sels[j as int], at_i, d_i));
                        assert(!fits_sel(cres.sels[j as int]));
                        assert(!ctx_fits(cres));
                    }
                    return Err(EditError::ArithmeticOverflow);
                }
                ne_ = v as i32;
            }
            let nsel = Selection { begin: Location(Pulse(nb)), end: Location(Pulse(ne_)) };
            proof {
                assert(nsel@ == shifted_sels[j as int]);
            }
            let ghost prev = new_sels@;
            new_sels.push(nsel);
            proof {
                prev.lemma_push_map_commute(|s: Selection| s@, nsel);
                assert(prev.map_values(|s: Selection| s@).push(nsel@) =~= shifted_sels.take(
                    j as int + 1,
                ));
            }
            j = j + 1;
        }

        if self.next_id == u32::MAX {
            proof {
                assert(insert_spec(c0, at_i, event.note, d_i).next_id > u32::MAX);
            }
            return Err(EditError::ArithmeticOverflow);
        }

        let fresh = Event {
            event_id: self.next_id,
            note: event.note,
            duration: event.duration,
            start: Pulse(at),
        };
        proof {
            assert(fresh@ == (EventV { id: c0.next_id, note: event.note, start: at_i, dur: d_i }));
            assert(shifted.take(n as int) =~= shifted);
            assert(shifted_sels.take(m as int) =~= shifted_sels);
            assert forall|k: int| 0 <= k < c0.events.len() implies fits_ev(
                shifted_event(#[trigger] c0.events[k], at_i, d_i),
            ) by {
                assert(shifted[k] == shifted_event(c0.events[k], at_i, d_i));
            }
            assert forall|k: int| 0 <= k < c0.sels.len() implies fits_sel(
                shifted_sel(#[trigger] c0.sels[k], at_i, d_i),
            ) by {
                assert(shifted_sels[k] == shifted_sel(c0.sels[k], at_i, d_i));
            }
            lemma_insert_fit(c0, at_i, event.note, d_i);
        }
        insert_sorted(&mut new_events, fresh);
        self.score.events = new_events;
        self.selections.0 = new_sels;
        self.next_id = self.next_id + 1;
        Ok(())
    }

    /// The events whose start lies inside the given selection's range, in
    /// timeline order.
    pub fn events_in_selection(&self, selection: usize) -> (r: Vec<Event>)
        requires
            selection < self.selections.0@.len(),
        ensures
            evs(r@) == self@.events.filter(
                |e: EventV| ev_in_sel(e, self@.sels[selection as int]),
            ),
    {
        let ghost pred = |e: EventV| ev_in_sel(e, self@.sels[selection as int]);
        let sel = self.selections.0[selection];
        proof {
            assert(self@.sels[selection as int] == sel@);
        }
        let mut out: Vec<Event> = Vec::new();
        let mut i: usize = 0;
        while i < self.score.events.len()
            invariant
                0 <= i <= self.score.events.len(),
                sel@ == self@.sels[selection as int],
                selection < self@.sels.len(),
                pred == (|e: EventV| ev_in_sel(e, self@.sels[selection as int])),
                evs(out@) == self@.events.take(i as int).filter(pred),
            decreases self.score.events.len() - i,
        {
            let e = self.score.events[i];
            proof {
                assert(self@.events[i as int] == e@);
                self@.events.take(i as int).lemma_filter_push(e@, pred);
                assert(self@.events.take(i as int).push(e@) =~= self@.events.take(i as int + 1));
            }
            if e.start.0 >= sel.begin.0.0 && e.start.0 <= sel.end.0.0 {
                out.push(e);
                proof {
                    assert(evs(out@) =~= self@.events.take(i as int).filter(pred).push(e@));
                }
            }
            i = i + 1;
        }
        proof {
            assert(self@.events.take(self.score.events@.len() as int) =~= self@.events);
        }
        out
    }

    /// A fresh session with the same timeline, selections and identifier
    /// counter: commands stage their whole result on such a copy and swap
    /// it in only when every step has succeeded.
    pub fn duplicate(&self) -> (r: Context)
        ensures
            r@ == self@,
    {
        let mut ev: Vec<Event> = Vec::new();
        let mut i: usize = 0;
        while i < self.score.events.len()
            invariant
                0 <= i <= self.score.events.len(),
                ev@ == self.score.events@.take(i as int),
            decreases self.score.events.len() - i,
        {
            ev.push(self.score.events[i]);
            proof {
                assert(ev@ =~= self.score.events@.take(i as int + 1));
            }
            i = i + 1;
        }
        let mut sels: Vec<Selection> = Vec::new();
        let mut j: usize = 0;
        while j < self.selections.0.len()
            invariant
                0 <= j <= self.selections.0.len(),
                sels@ == self.selections.0@.take(j as int),
            decreases self.selections.0.len() - j,
        {
            sels.push(self.selections.0[j]);
            proof {
                assert(sels@ =~= self.selections.0@.take(j as int + 1));
            }
            j = j + 1;
        }
        let r = Context {
            score: Score { events: ev },
            selections: Selections(sels),
            next_id: self.next_id,
        };
        proof {
            assert(ev@ =~= self.score.events@);
            assert(sels@ =~= self.selections.0@);
            assert(r@.events =~= self@.events);
            assert(r@.sels =~= self@.sels);
        }
        r
    }
}

} // verus!
