//! The edit commands: polymorphic operations that mutate a session as one
//! atomic step. A command either runs to completion or reports an error
//! and leaves the session exactly as it was.

use vstd::prelude::*;

use crate::event::Event;
use crate::event::EventV;
use crate::pitch::Note;
use crate::pulse::Location;
use crate::pulse::Pulse;
use crate::score::evs;
use crate::score::insert_sorted;
use crate::score::lemma_resort_from_ensures;
use crate::score::lemma_resort_from_push;
use crate::score::resort;
use crate::score::resort_from;
use crate::selection::SelV;
use crate::selection::Selection;
use crate::session::ctx_fits;
use crate::session::ev_in_sel;
use crate::session::fits_ev;
use crate::session::fits_sel;
use crate::session::insert_spec;
use crate::session::lemma_view_fits;
use crate::session::Context;
use crate::session::CtxV;
use crate::session::EditError;

verus! {

/// A pulse offset for a move command: either an explicit pulse count, or
/// an offset counted in timeline events from the selection's anchor.
pub enum Duration {
    Pulse(Pulse),
    Event(i32),
}

/// The model of a move offset.
pub ghost enum DeltaV {
    Pulse(int),
    Event(int),
}

impl View for Duration {
    type V = DeltaV;

    open spec fn view(&self) -> DeltaV {
        match self {
            Duration::Pulse(p) => DeltaV::Pulse(p.0 as int),
            Duration::Event(d) => DeltaV::Event(*d as int),
        }
    }
}

/// The model of an edit command.
pub ghost enum CmdV {
    Append { note: Note, duration: int, scope: Option<Seq<int>> },
    Move { delta: DeltaV, scope: Seq<int> },
    MoveEnd { delta: DeltaV, scope: Seq<int> },
    MoveContents { delta: DeltaV, scope: Seq<int> },
    Transpose { semitones: int, scope: Seq<int> },
    Delete { scope: Seq<int> },
}

/// The selection indices a command operates on: the given scope, or every
/// selection when none was given.
pub open spec fn scope_ids(c: CtxV, scope: Option<Seq<int>>) -> Seq<int> {
    match scope {
        Some(s) => s,
        None => Seq::new(c.sels.len(), |i: int| i),
    }
}

/// The index of the first event starting strictly after `p`, scanning from
/// `i`; the last index when no event starts after `p`.
pub open spec fn first_after_from(events: Seq<EventV>, p: int, i: int) -> int
    recommends
        0 <= i <= events.len(),
        events.len() > 0,
    decreases events.len() - i,
{
    if i >= events.len() {
        events.len() - 1
    } else if events[i].start > p {
        i
    } else {
        first_after_from(events, p, i + 1)
    }
}

/// A value clamped into `[0, last]`.
pub open spec fn clamp_idx(v: int, last: int) -> int {
    if v < 0 {
        0
    } else if v > last {
        last
    } else {
        v
    }
}

/// The pulse offset a move delta resolves to at `anchor`: an explicit
/// pulse offset stands as given; an event-count offset walks from the
/// first event after the anchor, clamped to the timeline, and is the
/// difference of the two events' starts. An event-count offset on an
/// empty timeline has no anchor event and fails.
pub open spec fn resolve_delta(events: Seq<EventV>, anchor: int, delta: DeltaV) -> Result<
    int,
    EditError,
> {
    match delta {
        DeltaV::Pulse(p) => Ok(p),
        DeltaV::Event(d) => {
            if events.len() == 0 {
                Err(EditError::EmptyTimelineNavigation)
            } else {
                let i = first_after_from(events, anchor, 0);
                let j = clamp_idx(i + d, events.len() - 1);
                Ok(events[j].start - events[i].start)
            }
        },
    }
}

/// One append per selection in scope, in order: each inserts a fresh
/// event at that selection's end position.
pub open spec fn append_steps(c: CtxV, note: Note, duration: int, ids: Seq<int>) -> Result<
    CtxV,
    EditError,
>
    decreases ids.len(),
{
    if ids.len() == 0 {
        Ok(c)
    } else if !(0 <= ids[0] < c.sels.len()) {
        Err(EditError::SelectionIndexOutOfRange)
    } else {
        let c1 = insert_spec(c, c.sels[ids[0]].end, note, duration);
        if !ctx_fits(c1) {
            Err(EditError::ArithmeticOverflow)
        } else {
            append_steps(c1, note, duration, ids.drop_first())
        }
    }
}

/// One move per selection in scope, in order: the delta resolves at the
/// selection's begin and shifts begin and end together.
pub open spec fn move_steps(c: CtxV, delta: DeltaV, ids: Seq<int>) -> Result<CtxV, EditError>
    decreases ids.len(),
{
    if ids.len() == 0 {
        Ok(c)
    } else if !(0 <= ids[0] < c.sels.len()) {
        Err(EditError::SelectionIndexOutOfRange)
    } else {
        let s = c.sels[ids[0]];
        match resolve_delta(c.events, s.begin, delta) {
            Err(e) => Err(e),
            Ok(dp) => {
                let c1 = CtxV {
                    events: c.events,
                    sels: c.sels.update(ids[0], SelV { begin: s.begin + dp, end: s.end + dp }),
                    next_id: c.next_id,
                };
                if !ctx_fits(c1) {
                    Err(EditError::ArithmeticOverflow)
                } else {
                    move_steps(c1, delta, ids.drop_first())
                }
            },
        }
    }
}

/// One move per selection in scope, shifting only the end; when the new
/// end falls before the begin, the two bounds swap so `begin <= end`
/// keeps holding. The delta resolves at the selection's end.
pub open spec fn move_end_steps(c: CtxV, delta: DeltaV, ids: Seq<int>) -> Result<CtxV, EditError>
    decreases ids.len(),
{
    if ids.len() == 0 {
        Ok(c)
    } else if !(0 <= ids[0] < c.sels.len()) {
        Err(EditError::SelectionIndexOutOfRange)
    } else {
        let s = c.sels[ids[0]];
        match resolve_delta(c.events, s.end, delta) {
            Err(e) => Err(e),
            Ok(dp) => {
                let ne = s.end + dp;
                let ns = if ne < s.begin {
                    SelV { begin: ne, end: s.begin }
                } else {
                    SelV { begin: s.begin, end: ne }
                };
                let c1 = CtxV { events: c.events, sels: c.sels.update(ids[0], ns), next_id: c.next_id };
                if !ctx_fits(c1) {
                    Err(EditError::ArithmeticOverflow)
                } else {
                    move_end_steps(c1, delta, ids.drop_first())
                }
            },
        }
    }
}

/// An event under a contents move: events inside `[b, en]` shift by `dp`;
/// an outside event that the moved block would overtake is displaced the
/// opposite way by the same magnitude (the ripple), so no new overlap
/// arises.
pub open spec fn ripple_shift(e: EventV, b: int, en: int, dp: int) -> EventV {
    if b <= e.start <= en {
        EventV { id: e.id, note: e.note, start: e.start + dp, dur: e.dur }
    } else if dp > 0 {
        if e.start <= en + dp {
            EventV { id: e.id, note: e.note, start: e.start - dp, dur: e.dur }
        } else {
            e
        }
    } else {
        if e.start >= b + dp {
            EventV { id: e.id, note: e.note, start: e.start - dp, dur: e.dur }
        } else {
            e
        }
    }
}

/// One contents move per selection in scope: the delta resolves at the
/// selection's begin; in-range events shift by it, overtaken events
/// ripple out of the way, the timeline is rebuilt in ascending order, and
/// the selection's own bounds shift to keep bracketing the moved content.
pub open spec fn move_contents_steps(c: CtxV, delta: DeltaV, ids: Seq<int>) -> Result<
    CtxV,
    EditError,
>
    decreases ids.len(),
{
    if ids.len() == 0 {
        Ok(c)
    } else if !(0 <= ids[0] < c.sels.len()) {
        Err(EditError::SelectionIndexOutOfRange)
    } else {
        let s = c.sels[ids[0]];
        match resolve_delta(c.events, s.begin, delta) {
            Err(e) => Err(e),
            Ok(dp) => {
                let c1 = CtxV {
                    events: resort(
                        c.events.map_values(|e: EventV| ripple_shift(e, s.begin, s.end, dp)),
                    ),
                    sels: c.sels.update(ids[0], SelV { begin: s.begin + dp, end: s.end + dp }),
                    next_id: c.next_id,
                };
                if !ctx_fits(c1) {
                    Err(EditError::ArithmeticOverflow)
                } else {
                    move_contents_steps(c1, delta, ids.drop_first())
                }
            },
        }
    }
}

/// The timeline with every event inside `s` transposed by `k` semitones,
/// timing untouched.
pub open spec fn transpose_events(events: Seq<EventV>, s: SelV, k: int) -> Seq<EventV> {
    events.map_values(
        |e: EventV|
            if ev_in_sel(e, s) {
                EventV { id: e.id, note: e.note.transpose_result(k), start: e.start, dur: e.dur }
            } else {
                e
            },
    )
}

/// Whether every event inside `s` can be transposed by `k` semitones
/// without its pitch leaving the encodable range.
pub open spec fn all_transposable(events: Seq<EventV>, s: SelV, k: int) -> bool {
    forall|i: int|
        0 <= i < events.len() && ev_in_sel(#[trigger] events[i], s) ==> events[i].note.can_transpose(
            k,
        )
}

/// One transposition per selection in scope: every event whose start lies
/// in the selection's range has its pitch stepped by `k` semitones in
/// place. Timing and the selections themselves are untouched.
pub open spec fn transpose_steps(c: CtxV, k: int, ids: Seq<int>) -> Result<CtxV, EditError>
    decreases ids.len(),
{
    if ids.len() == 0 {
        Ok(c)
    } else if !(0 <= ids[0] < c.sels.len()) {
        Err(EditError::SelectionIndexOutOfRange)
    } else {
        let s = c.sels[ids[0]];
        if !all_transposable(c.events, s, k) {
            Err(EditError::PitchOutOfRange)
        } else {
            let c1 = CtxV { events: transpose_events(c.events, s, k), sels: c.sels, next_id: c.next_id };
            transpose_steps(c1, k, ids.drop_first())
        }
    }
}

/// One removal per selection in scope: every event whose start lies in
/// the selection's range disappears; every other event keeps its start
/// position, so the time gap is not closed.
pub open spec fn delete_steps(c: CtxV, ids: Seq<int>) -> Result<CtxV, EditError>
    decreases ids.len(),
{
    if ids.len() == 0 {
        Ok(c)
    } else if !(0 <= ids[0] < c.sels.len()) {
        Err(EditError::SelectionIndexOutOfRange)
    } else {
        let s = c.sels[ids[0]];
        let c1 = CtxV {
            events: c.events.filter(|e: EventV| !ev_in_sel(e, s)),
            sels: c.sels,
            next_id: c.next_id,
        };
        delete_steps(c1, ids.drop_first())
    }
}

/// What an edit command does to a session model: the whole effect on
/// success, or the specific error and no change at all.
pub open spec fn apply_cmd(c: CtxV, cmd: CmdV) -> Result<CtxV, EditError> {
    match cmd {
        CmdV::Append { note, duration, scope } => append_steps(
            c,
            note,
            duration,
            scope_ids(c, scope),
        ),
        CmdV::Move { delta, scope } => move_steps(c, delta, scope),
        CmdV::MoveEnd { delta, scope } => move_end_steps(c, delta, scope),
        CmdV::MoveContents { delta, scope } => move_contents_steps(c, delta, scope),
        CmdV::Transpose { semitones, scope } => transpose_steps(c, semitones, scope),
        CmdV::Delete { scope } => delete_steps(c, scope),
    }
}

/// Scanning past positions at or before `p` does not change where the
/// first event after `p` lies.
proof fn lemma_first_after_skip(events: Seq<EventV>, p: int, i: int, j: int)
    requires
        0 <= i <= j <= events.len(),
        forall|m: int| i <= m < j ==> (#[trigger] events[m]).start <= p,
    ensures
        first_after_from(events, p, i) == first_after_from(events, p, j),
    decreases j - i,
{
    if i < j {
        assert(events[i].start <= p);
        lemma_first_after_skip(events, p, i + 1, j);
    }
}

/// The pulse offset a move delta resolves to at `anchor`, computed on the
/// live timeline.
fn resolve_delta_exec(events: &Vec<Event>, anchor: i32, delta: &Duration) -> (r: Result<
    i64,
    EditError,
>)
    ensures
        match r {
            Ok(v) => resolve_delta(evs(events@), anchor as int, delta@) == Ok::<int, EditError>(
                v as int,
            ) && i32::MIN - i32::MAX <= v <= i32::MAX - i32::MIN,
            Err(e) => resolve_delta(evs(events@), anchor as int, delta@) == Err::<int, EditError>(
                e,
            ),
        },
{
    match delta {
        Duration::Pulse(p) => Ok(p.0 as i64),
        Duration::Event(d) => {
            let n = events.len();
            if n == 0 {
                return Err(EditError::EmptyTimelineNavigation);
            }
            let ghost se = evs(events@);
            let mut idx: usize = n - 1;
            let mut found = false;
            let mut j: usize = 0;
            while j < n
                invariant
                    0 <= j <= n,
                    n == events@.len(),
                    se == evs(events@),
                    found ==> 0 <= idx < n && se[idx as int].start > anchor as int && forall|
                        m: int,
                    |
                        0 <= m < idx ==> (#[trigger] se[m]).start <= anchor as int,
                    !found ==> idx == n - 1 && forall|m: int|
                        0 <= m < j ==> (#[trigger] se[m]).start <= anchor as int,
                decreases n - j,
            {
                if !found {
                    let e = events[j];
                    proof {
                        assert(se[j as int] == e@);
                    }
                    if e.start.0 > anchor {
                        idx = j;
                        found = true;
                    }
                }
                j = j + 1;
            }
            proof {
                if found {
                    lemma_first_after_skip(se, anchor as int, 0, idx as int);
                    assert(first_after_from(se, anchor as int, idx as int) == idx as int);
                } else {
                    lemma_first_after_skip(se, anchor as int, 0, n as int);
                    assert(first_after_from(se, anchor as int, n as int) == n - 1);
                }
            }
            let initial = events[idx].start.0;
            let ti: i128 = idx as i128 + *d as i128;
            let last = n - 1;
            let ji: usize = if ti < 0 {
                0
            } else if ti > last as i128 {
                last
            } else {
                ti as usize
            };
            proof {
                assert(ji as int == clamp_idx(idx as int + *d as int, se.len() - 1));
                assert(se[ji as int] == events@[ji as int]@);
                assert(se[idx as int] == events@[idx as int]@);
            }
            Ok(events[ji].start.0 as i64 - initial as i64)
        },
    }
}

/// Rebuilding a sequence in timeline order keeps exactly its elements.
proof fn lemma_resort_same_contents(s: Seq<EventV>)
    ensures
        resort(s).len() == s.len(),
        forall|x: EventV| #[trigger] resort(s).contains(x) <==> s.contains(x),
{
    broadcast use vstd::multiset::group_multiset_axioms;

    lemma_resort_from_ensures(Seq::<EventV>::empty(), s);
    Seq::<EventV>::empty().to_multiset_ensures();
    s.to_multiset_ensures();
    resort(s).to_multiset_ensures();
    assert(resort(s).to_multiset() =~= s.to_multiset());
    assert forall|x: EventV| #[trigger] resort(s).contains(x) <==> s.contains(x) by {
        assert(resort(s).contains(x) <==> resort(s).to_multiset().count(x) > 0);
        assert(s.contains(x) <==> s.to_multiset().count(x) > 0);
    }
}

/// The selection indices of a command's scope as machine indices, checked
/// against nothing yet: each step of a command validates its own index.
fn scope_vec(explicit: Option<&Vec<u32>>, all: usize) -> (r: Vec<usize>)
    ensures
        match explicit {
            Some(v) => r@.map_values(|x: usize| x as int) == v@.map_values(|x: u32| x as int),
            None => r@.map_values(|x: usize| x as int) == Seq::new(all as nat, |i: int| i),
        },
{
    let mut out: Vec<usize> = Vec::new();
    match explicit {
        Some(v) => {
            let mut k: usize = 0;
            while k < v.len()
                invariant
                    0 <= k <= v.len(),
                    out@.len() == k,
                    forall|m: int| 0 <= m < k ==> out@[m] == v@[m] as usize,
                decreases v.len() - k,
            {
                out.push(v[k] as usize);
                k = k + 1;
            }
            proof {
                assert(out@.map_values(|x: usize| x as int) =~= v@.map_values(|x: u32| x as int));
            }
        },
        None => {
            let mut k: usize = 0;
            while k < all
                invariant
                    0 <= k <= all,
                    out@.len() == k,
                    forall|m: int| 0 <= m < k ==> out@[m] == m,
                decreases all - k,
            {
                out.push(k);
                k = k + 1;
            }
            proof {
                assert(out@.map_values(|x: usize| x as int) =~= Seq::new(all as nat, |i: int| i));
            }
        },
    }
    out
}

/// An edit command: a value carrying its parameters, with one entry point
/// that applies it to a session. A command either applies whole or
/// reports why it could not and leaves the session unchanged.
pub trait Operation {
    /// The model of this command.
    spec fn cmd(&self) -> CmdV;

    /// Applies the command to the session, atomically.
    fn apply(&self, ctx: &mut Context) -> (r: Result<(), EditError>)
        ensures
            match apply_cmd(old(ctx)@, self.cmd()) {
                Ok(m) => r == Ok::<(), EditError>(()) && final(ctx)@ == m,
                Err(e) => r == Err::<(), EditError>(e) && *final(ctx) == *old(ctx),
            },
    ;
}

/// Appends one fresh note per selection in scope (all selections when no
/// scope is given): each insertion happens at that selection's end, so the
/// end — and every later position — advances by the note's duration.
pub struct AppendNote {
    pub note: Note,
    pub duration: Pulse,
    pub selections: Option<Vec<u32>>,
}

impl Operation for AppendNote {
    open spec fn cmd(&self) -> CmdV {
        CmdV::Append {
            note: self.note,
            duration: self.duration.0 as int,
            scope: match &self.selections {
                Some(v) => Some(v@.map_values(|x: u32| x as int)),
                None => None,
            },
        }
    }

    fn apply(&self, ctx: &mut Context) -> (r: Result<(), EditError>) {
        let ghost c0 = ctx@;
        let ghost dur = self.duration.0 as int;
        let idsv = scope_vec(self.selections.as_ref(), ctx.selections.0.len());
        let ghost ids = idsv@.map_values(|x: usize| x as int);
        proof {
            assert(ids == scope_ids(c0, self.cmd()->Append_scope));
        }
        let mut work = ctx.duplicate();
        let mut k: usize = 0;
        proof {
            assert(ids.skip(0) =~= ids);
        }
        while k < idsv.len()
            invariant
                0 <= k <= idsv.len(),
                ids == idsv@.map_values(|x: usize| x as int),
                append_steps(c0, self.note, dur, ids) == append_steps(
                    work@,
                    self.note,
                    dur,
                    ids.skip(k as int),
                ),
            decreases idsv.len() - k,
        {
            let id = idsv[k];
            proof {
                assert(ids.skip(k as int)[0] == id as int);
            }
            if id >= work.selections.0.len() {
                return Err(EditError::SelectionIndexOutOfRange);
            }
            let end_loc = work.selections.0[id].end;
            proof {
                assert(work@.sels[id as int] == work.selections.0@[id as int]@);
            }
            let ev = Event {
                event_id: 0,
                note: self.note,
                duration: self.duration,
                start: end_loc.0,
            };
            let res = work.insert_event_at_location(end_loc, ev);
            if let Err(e) = res {
                return Err(e);
            }
            proof {
                assert(ids.skip(k as int).drop_first() =~= ids.skip(k as int + 1));
            }
            k = k + 1;
        }
        proof {
            assert(ids.skip(idsv@.len() as int) =~= Seq::<int>::empty());
        }
        *ctx = work;
        Ok(())
    }
}

/// Moves each selection in scope: begin and end shift together by the
/// resolved delta.
pub struct MoveSelections {
    pub delta: Duration,
    pub selections: Vec<u32>,
}

impl Operation for MoveSelections {
    open spec fn cmd(&self) -> CmdV {
        CmdV::Move { delta: self.delta@, scope: self.selections@.map_values(|x: u32| x as int) }
    }

    fn apply(&self, ctx: &mut Context) -> (r: Result<(), EditError>) {
        let ghost c0 = ctx@;
        let idsv = scope_vec(Some(&self.selections), 0);
        let ghost ids = idsv@.map_values(|x: usize| x as int);
        let mut work = ctx.duplicate();
        let mut k: usize = 0;
        proof {
            assert(ids.skip(0) =~= ids);
        }
        while k < idsv.len()
            invariant
                0 <= k <= idsv.len(),
                ids == idsv@.map_values(|x: usize| x as int),
                move_steps(c0, self.delta@, ids) == move_steps(
                    work@,
                    self.delta@,
                    ids.skip(k as int),
                ),
            decreases idsv.len() - k,
        {
            let id = idsv[k];
            proof {
                assert(ids.skip(k as int)[0] == id as int);
            }
            if id >= work.selections.0.len() {
                return Err(EditError::SelectionIndexOutOfRange);
            }
            let s = work.selections.0[id];
            proof {
                assert(work@.sels[id as int] == s@);
            }
            let dp = match resolve_delta_exec(&work.score.events, s.begin.0.0, &self.delta) {
                Ok(v) => v,
                Err(e) => { return Err(e) },
            };
            let nb: i64 = s.begin.0.0 as i64 + dp;
            let nen: i64 = s.end.0.0 as i64 + dp;
            let ghost ns = SelV { begin: s@.begin + dp as int, end: s@.end + dp as int };
            let ghost c1 = CtxV {
                events: work@.events,
                sels: work@.sels.update(id as int, ns),
                next_id: work@.next_id,
            };
            proof {
                assert(c1.sels[id as int] == ns);
            }
            if nb < i32::MIN as i64 || nb > i32::MAX as i64 || nen < i32::MIN as i64 || nen
                > i32::MAX as i64 {
                proof {
                    assert(!fits_sel(ns));
                    assert(!ctx_fits(c1));
                }
                return Err(EditError::ArithmeticOverflow);
            }
            let ghost pre = work@;
            work.selections.0.set(
                id,
                Selection { begin: Location(Pulse(nb as i32)), end: Location(Pulse(nen as i32)) },
            );
            proof {
                assert(work@.sels =~= pre.sels.update(id as int, ns));
                assert(work@ == c1);
                lemma_view_fits(&work);
                assert(ids.skip(k as int).drop_first() =~= ids.skip(k as int + 1));
            }
            k = k + 1;
        }
        proof {
            assert(ids.skip(idsv@.len() as int) =~= Seq::<int>::empty());
        }
        *ctx = work;
        Ok(())
    }
}

/// Moves only the end of each selection in scope by the resolved delta;
/// when the new end falls before the begin, the bounds swap so that
/// `begin <= end` keeps holding.
pub struct MoveSelectionsEnd {
    pub delta: Duration,
    pub selections: Vec<u32>,
}

impl Operation for MoveSelectionsEnd {
    open spec fn cmd(&self) -> CmdV {
        CmdV::MoveEnd { delta: self.delta@, scope: self.selections@.map_values(|x: u32| x as int) }
    }

    fn apply(&self, ctx: &mut Context) -> (r: Result<(), EditError>) {
        let ghost c0 = ctx@;
        let idsv = scope_vec(Some(&self.selections), 0);
        let ghost ids = idsv@.map_values(|x: usize| x as int);
        let mut work = ctx.duplicate();
        let mut k: usize = 0;
        proof {
            assert(ids.skip(0) =~= ids);
        }
        while k < idsv.len()
            invariant
                0 <= k <= idsv.len(),
                ids == idsv@.map_values(|x: usize| x as int),
                move_end_steps(c0, self.delta@, ids) == move_end_steps(
                    work@,
                    self.delta@,
                    ids.skip(k as int),
                ),
            decreases idsv.len() - k,
        {
            let id = idsv[k];
            proof {
                assert(ids.skip(k as int)[0] == id as int);
            }
            if id >= work.selections.0.len() {
                return Err(EditError::SelectionIndexOutOfRange);
            }
            let s = work.selections.0[id];
            proof {
                assert(work@.sels[id as int] == s@);
            }
            let dp = match resolve_delta_exec(&work.score.events, s.end.0.0, &self.delta) {
                Ok(v) => v,
                Err(e) => { return Err(e) },
            };
            let nen: i64 = s.end.0.0 as i64 + dp;
            let ghost ns = if (s@.end + (dp as int) < s@.begin) {
                SelV { begin: s@.end + dp as int, end: s@.begin }
            } else {
                SelV { begin: s@.begin, end: s@.end + dp as int }
            };
            let ghost c1 = CtxV {
                events: work@.events,
                sels: work@.sels.update(id as int, ns),
                next_id: work@.next_id,
            };
            proof {
                assert(c1.sels[id as int] == ns);
            }
            if nen < i32::MIN as i64 || nen > i32::MAX as i64 {
                proof {
                    assert(!fits_sel(ns));
                    assert(!ctx_fits(c1));
                }
                return Err(EditError::ArithmeticOverflow);
            }
            let nsel = if nen < s.begin.0.0 as i64 {
                Selection { begin: Location(Pulse(nen as i32)), end: s.begin }
            } else {
                Selection { begin: s.begin, end: Location(Pulse(nen as i32)) }
            };
            proof {
                assert(nsel@ == ns);
            }
            let ghost pre = work@;
            work.selections.0.set(id, nsel);
            proof {
                assert(work@.sels =~= pre.sels.update(id as int, ns));
                assert(work@ == c1);
                lemma_view_fits(&work);
                assert(ids.skip(k as int).drop_first() =~= ids.skip(k as int + 1));
            }
            k = k + 1;
        }
        proof {
            assert(ids.skip(idsv@.len() as int) =~= Seq::<int>::empty());
        }
        *ctx = work;
        Ok(())
    }
}

/// Moves the contents of each selection in scope: in-range events shift
/// by the resolved delta, overtaken events ripple out of the way, and the
/// selection's bounds shift with the moved block.
pub struct MoveSelectionsContents {
    pub delta: Duration,
    pub selections: Vec<u32>,
}

impl Operation for MoveSelectionsContents {
    open spec fn cmd(&self) -> CmdV {
        CmdV::MoveContents {
            delta: self.delta@,
            scope: self.selections@.map_values(|x: u32| x as int),
        }
    }

    fn apply(&self, ctx: &mut Context) -> (r: Result<(), EditError>) {
        let ghost c0 = ctx@;
        let idsv = scope_vec(Some(&self.selections), 0);
        let ghost ids = idsv@.map_values(|x: usize| x as int);
        let mut work = ctx.duplicate();
        let mut k: usize = 0;
        proof {
            assert(ids.skip(0) =~= ids);
        }
        while k < idsv.len()
            invariant
                0 <= k <= idsv.len(),
                ids == idsv@.map_values(|x: usize| x as int),
                move_contents_steps(c0, self.delta@, ids) == move_contents_steps(
                    work@,
                    self.delta@,
                    ids.skip(k as int),
                ),
            decreases idsv.len() - k,
        {
            let id = idsv[k];
            proof {
                assert(ids.skip(k as int)[0] == id as int);
            }
            if id >= work.selections.0.len() {
                return Err(EditError::SelectionIndexOutOfRange);
            }
            let s = work.selections.0[id];
            proof {
                assert(work@.sels[id as int] == s@);
            }
            let dp = match resolve_delta_exec(&work.score.events, s.begin.0.0, &self.delta) {
                Ok(v) => v,
                Err(e) => { return Err(e) },
            };
            let b = s.begin.0.0;
            let en = s.end.0.0;
            let ghost mapped = work@.events.map_values(
                |e: EventV| ripple_shift(e, s@.begin, s@.end, dp as int),
            );
            let ghost ns = SelV { begin: s@.begin + dp as int, end: s@.end + dp as int };
            let ghost c1 = CtxV {
                events: resort(mapped),
                sels: work@.sels.update(id as int, ns),
                next_id: work@.next_id,
            };
            let n = work.score.events.len();
            let mut newv: Vec<Event> = Vec::new();
            let mut i: usize = 0;
            while i < n
                invariant
                    0 <= i <= n,
                    evs(newv@) == resort_from(Seq::<EventV>::empty(), mapped.take(i as int)),
                    forall|m: int| 0 <= m < i ==> fits_ev(#[trigger] mapped[m]),
                decreases n - i,
            {
                let e = work.score.events[i];
                proof {
                    assert(work@.events[i as int] == e@);
                    assert(mapped[i as int] == ripple_shift(e@, s@.begin, s@.end, dp as int));
                }
                let st = e.start.0;
                let nsi: i64 = if b <= st && st <= en {
                    st as i64 + dp
                } else if dp > 0 {
                    if st as i64 <= en as i64 + dp {
                        st as i64 - dp
                    } else {
                        st as i64
                    }
                } else {
                    if st as i64 >= b as i64 + dp {
                        st as i64 - dp
                    } else {
                        st as i64
                    }
                };
                proof {
                    assert(nsi as int == mapped[i as int].start);
                }
                if nsi < i32::MIN as i64 || nsi > i32::MAX as i64 {
                    proof {
                        lemma_resort_same_contents(mapped);
                        assert(mapped.contains(mapped[i as int]));
                        assert(resort(mapped).contains(mapped[i as int]));
                        let j = choose|j: int|
                            0 <= j < resort(mapped).len() && resort(mapped)[j] == mapped[i as int];
                        assert(!fits_ev(c1.events[j]));
                        assert(!ctx_fits(c1));
                    }
                    return Err(EditError::ArithmeticOverflow);
                }
                let ne = Event {
                    event_id: e.event_id,
                    note: e.note,
                    duration: e.duration,
                    start: Pulse(nsi as i32),
                };
                proof {
                    assert(ne@ == mapped[i as int]);
                    lemma_resort_from_push(
                        Seq::<EventV>::empty(),
                        mapped.take(i as int),
                        mapped[i as int],
                    );
                    assert(mapped.take(i as int + 1) =~= mapped.take(i as int).push(
                        mapped[i as int],
                    ));
                }
                insert_sorted(&mut newv, ne);
                i = i + 1;
            }
            let nb: i64 = b as i64 + dp;
            let nen: i64 = en as i64 + dp;
            if nb < i32::MIN as i64 || nb > i32::MAX as i64 || nen < i32::MIN as i64 || nen
                > i32::MAX as i64 {
                proof {
                    assert(c1.sels[id as int] == ns);
                    assert(!fits_sel(ns));
                    assert(!ctx_fits(c1));
                }
                return Err(EditError::ArithmeticOverflow);
            }
            let ghost pre = work@;
            work.score.events = newv;
            work.selections.0.set(
                id,
                Selection { begin: Location(Pulse(nb as i32)), end: Location(Pulse(nen as i32)) },
            );
            proof {
                assert(mapped.take(n as int) =~= mapped);
                assert(work@.events == resort(mapped));
                assert(work@.sels =~= pre.sels.update(id as int, ns));
                assert(work@ == c1);
                lemma_view_fits(&work);
                assert(ids.skip(k as int).drop_first() =~= ids.skip(k as int + 1));
            }
            k = k + 1;
        }
        proof {
            assert(ids.skip(idsv@.len() as int) =~= Seq::<int>::empty());
        }
        *ctx = work;
        Ok(())
    }
}

/// Transposes, in place, the pitch of every event inside each selection in
/// scope by the given number of semitones. Timing and the selections
/// themselves stay untouched.
pub struct TransposeSelectionsContents {
    pub semitones: i32,
    pub selections: Vec<u32>,
}

impl Operation for TransposeSelectionsContents {
    open spec fn cmd(&self) -> CmdV {
        CmdV::Transpose {
            semitones: self.semitones as int,
            scope: self.selections@.map_values(|x: u32| x as int),
        }
    }

    fn apply(&self, ctx: &mut Context) -> (r: Result<(), EditError>) {
        let ghost c0 = ctx@;
        let idsv = scope_vec(Some(&self.selections), 0);
        let ghost ids = idsv@.map_values(|x: usize| x as int);
        let mut work = ctx.duplicate();
        let mut k: usize = 0;
        proof {
            assert(ids.skip(0) =~= ids);
        }
        while k < idsv.len()
            invariant
                0 <= k <= idsv.len(),
                ids == idsv@.map_values(|x: usize| x as int),
                transpose_steps(c0, self.semitones as int, ids) == transpose_steps(
                    work@,
                    self.semitones as int,
                    ids.skip(k as int),
                ),
            decreases idsv.len() - k,
        {
            let id = idsv[k];
            proof {
                assert(ids.skip(k as int)[0] == id as int);
            }
            if id >= work.selections.0.len() {
                return Err(EditError::SelectionIndexOutOfRange);
            }
            let s = work.selections.0[id];
            proof {
                assert(work@.sels[id as int] == s@);
            }
            let ghost mapped = transpose_events(work@.events, s@, self.semitones as int);
            let n = work.score.events.len();
            let mut newv: Vec<Event> = Vec::new();
            let mut i: usize = 0;
            while i < n
                invariant
                    0 <= i <= n,
                    evs(newv@) == mapped.take(i as int),
                    forall|m: int|
                        0 <= m < i && ev_in_sel(#[trigger] work@.events[m], s@)
                            ==> work@.events[m].note.can_transpose(self.semitones as int),
                decreases n - i,
            {
                let e = work.score.events[i];
                proof {
                    assert(work@.events[i as int] == e@);
                }
                if s.begin.0.0 <= e.start.0 && e.start.0 <= s.end.0.0 {
                    match e.note.try_transpose(self.semitones) {
                        None => {
                            proof {
                                assert(ev_in_sel(e@, s@));
                                assert(!all_transposable(work@.events, s@, self.semitones as int));
                            }
                            return Err(EditError::PitchOutOfRange);
                        },
                        Some(n2) => {
                            let ne = Event {
                                event_id: e.event_id,
                                note: n2,
                                duration: e.duration,
                                start: e.start,
                            };
                            proof {
                                assert(ne@ == mapped[i as int]);
                            }
                            newv.push(ne);
                        },
                    }
                } else {
                    proof {
                        assert(e@ == mapped[i as int]);
                    }
                    newv.push(e);
                }
                proof {
                    assert(evs(newv@) =~= mapped.take(i as int + 1));
                }
                i = i + 1;
            }
            let ghost pre = work@;
            work.score.events = newv;
            proof {
                assert(mapped.take(n as int) =~= mapped);
                assert(all_transposable(pre.events, s@, self.semitones as int));
                assert(work@ == (CtxV { events: mapped, sels: pre.sels, next_id: pre.next_id }));
                assert(ids.skip(k as int).drop_first() =~= ids.skip(k as int + 1));
            }
            k = k + 1;
        }
        proof {
            assert(ids.skip(idsv@.len() as int) =~= Seq::<int>::empty());
        }
        *ctx = work;
        Ok(())
    }
}

/// Removes every event whose start lies inside one of the selections in
/// scope. The time gap is not closed: every remaining event keeps its
/// start position.
pub struct DeleteSelections {
    pub selections: Vec<u32>,
}

impl Operation for DeleteSelections {
    open spec fn cmd(&self) -> CmdV {
        CmdV::Delete { scope: self.selections@.map_values(|x: u32| x as int) }
    }

    fn apply(&self, ctx: &mut Context) -> (r: Result<(), EditError>) {
        let ghost c0 = ctx@;
        let idsv = scope_vec(Some(&self.selections), 0);
        let ghost ids = idsv@.map_values(|x: usize| x as int);
        let mut work = ctx.duplicate();
        let mut k: usize = 0;
        proof {
            assert(ids.skip(0) =~= ids);
        }
        while k < idsv.len()
            invariant
                0 <= k <= idsv.len(),
                ids == idsv@.map_values(|x: usize| x as int),
                delete_steps(c0, ids) == delete_steps(work@, ids.skip(k as int)),
            decreases idsv.len() - k,
        {
            let id = idsv[k];
            proof {
                assert(ids.skip(k as int)[0] == id as int);
            }
            if id >= work.selections.0.len() {
                return Err(EditError::SelectionIndexOutOfRange);
            }
            let s = work.selections.0[id];
            let ghost pred = |e: EventV| !ev_in_sel(e, s@);
            proof {
                assert(work@.sels[id as int] == s@);
            }
            let n = work.score.events.len();
            let mut newv: Vec<Event> = Vec::new();
            let mut i: usize = 0;
            while i < n
                invariant
                    0 <= i <= n,
                    pred == (|e: EventV| !ev_in_sel(e, s@)),
                    evs(newv@) == work@.events.take(i as int).filter(pred),
                decreases n - i,
            {
                let e = work.score.events[i];
                proof {
                    assert(work@.events[i as int] == e@);
                    work@.events.take(i as int).lemma_filter_push(e@, pred);
                    assert(work@.events.take(i as int).push(e@) =~= work@.events.take(
                        i as int + 1,
                    ));
                }
                if !(e.start.0 >= s.begin.0.0 && e.start.0 <= s.end.0.0) {
                    newv.push(e);
                    proof {
                        assert(evs(newv@) =~= work@.events.take(i as int).filter(pred).push(e@));
                    }
                }
                i = i + 1;
            }
            let ghost pre = work@;
            work.score.events = newv;
            proof {
                assert(pre.events.take(n as int) =~= pre.events);
                assert(work@ == (CtxV {
                    events: pre.events.filter(|e: EventV| !ev_in_sel(e, pre.sels[id as int])),
                    sels: pre.sels,
                    next_id: pre.next_id,
                }));
                assert(ids.skip(k as int).drop_first() =~= ids.skip(k as int + 1));
            }
            k = k + 1;
        }
        proof {
            assert(ids.skip(idsv@.len() as int) =~= Seq::<int>::empty());
        }
        *ctx = work;
        Ok(())
    }
}

} // verus!
