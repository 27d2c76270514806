//! The laws of the editor: every command preserves the session invariant,
//! and the ordering, deletion and transposition properties the commands
//! promise are proved here once and for all.

use vstd::prelude::*;

use crate::commands::all_transposable;
use crate::commands::append_steps;
use crate::commands::apply_cmd;
use crate::commands::delete_steps;
use crate::commands::move_contents_steps;
use crate::commands::move_end_steps;
use crate::commands::move_steps;
use crate::commands::scope_ids;
use crate::commands::transpose_events;
use crate::commands::transpose_steps;
use crate::commands::CmdV;
use crate::commands::DeltaV;
use crate::event::ev_le;
use crate::event::ev_lt;
use crate::event::EventV;
use crate::pitch::Note;
use crate::score::lemma_insort_ensures;
use crate::score::lemma_resort_from_ensures;
use crate::score::lemma_uniq_ids_permutation;
use crate::score::resort;
use crate::score::sorted_by_key;
use crate::score::uniq_ids;
use crate::selection::SelV;
use crate::session::ev_in_sel;
use crate::session::insert_spec;
use crate::session::lemma_insert_spec_multiset;
use crate::session::shifted_event;
use crate::session::shifted_sel;
use crate::session::wf_ctx;
use crate::session::CtxV;
use crate::session::EditError;

verus! {

/// Filtering keeps exactly the matching elements, in their original
/// order, and so preserves the timeline order and identifier uniqueness.
pub proof fn lemma_filter_props(s: Seq<EventV>, pred: spec_fn(EventV) -> bool)
    ensures
        forall|x: EventV| #[trigger] s.filter(pred).contains(x) <==> s.contains(x) && pred(x),
        sorted_by_key(s) ==> sorted_by_key(s.filter(pred)),
        uniq_ids(s) ==> uniq_ids(s.filter(pred)),
    decreases s.len(),
{
    reveal(Seq::filter);
    let f = s.filter(pred);
    if s.len() == 0 {
        assert(f == s);
    } else {
        let d = s.drop_last();
        let last = s.last();
        lemma_filter_props(d, pred);
        let fd = d.filter(pred);
        assert forall|x: EventV| #[trigger] f.contains(x) <==> s.contains(x) && pred(x) by {
            if f.contains(x) {
                let i = choose|i: int| 0 <= i < f.len() && f[i] == x;
                if pred(last) && i == f.len() - 1 {
                    assert(s[s.len() - 1] == x);
                    assert(s.contains(x));
                } else {
                    assert(fd[i] == x);
                    assert(fd.contains(x));
                    let k = choose|k: int| 0 <= k < d.len() && d[k] == x;
                    assert(s[k] == x);
                    assert(s.contains(x));
                }
            }
            if s.contains(x) && pred(x) {
                let i = choose|i: int| 0 <= i < s.len() && s[i] == x;
                if i == s.len() - 1 {
                    if pred(last) {
                        assert(f[f.len() - 1] == x);
                        assert(f.contains(x));
                    }
                } else {
                    assert(d[i] == x);
                    assert(d.contains(x));
                    assert(fd.contains(x));
                    let k = choose|k: int| 0 <= k < fd.len() && fd[k] == x;
                    if pred(last) {
                        assert(f[k] == x);
                    }
                    assert(f.contains(x));
                }
            }
        }
        if sorted_by_key(s) {
            assert(sorted_by_key(d)) by {
                assert forall|i: int, j: int| 0 <= i < j < d.len() implies ev_le(d[i], d[j]) by {
                    assert(ev_le(s[i], s[j]));
                }
            }
            assert forall|i: int, j: int| 0 <= i < j < f.len() implies ev_le(f[i], f[j]) by {
                if pred(last) && j == f.len() - 1 {
                    assert(f[i] == fd[i]);
                    assert(fd.contains(fd[i]));
                    assert(d.contains(fd[i]) && pred(fd[i]));
                    let k = choose|k: int| 0 <= k < d.len() && d[k] == fd[i];
                    assert(ev_le(s[k], s[s.len() - 1]));
                } else {
                    assert(ev_le(fd[i], fd[j]));
                }
            }
        }
        if uniq_ids(s) {
            assert(uniq_ids(d)) by {
                assert forall|i: int, j: int|
                    0 <= i < d.len() && 0 <= j < d.len() && i != j implies (#[trigger] d[i]).id != (
                #[trigger] d[j]).id by {
                    assert(s[i].id != s[j].id);
                }
            }
            assert forall|i: int, j: int|
                0 <= i < f.len() && 0 <= j < f.len() && i != j implies (#[trigger] f[i]).id != (
            #[trigger] f[j]).id by {
                if pred(last) && (i == f.len() - 1 || j == f.len() - 1) {
                    let o = if i == f.len() - 1 {
                        j
                    } else {
                        i
                    };
                    assert(f[o] == fd[o]);
                    assert(fd.contains(fd[o]));
                    assert(d.contains(fd[o]));
                    let k = choose|k: int| 0 <= k < d.len() && d[k] == fd[o];
                    assert(s[k] == fd[o]);
                    assert(s[k].id != s[s.len() - 1].id);
                } else {
                    assert(fd[i].id != fd[j].id);
                }
            }
        }
    }
}

/// Inserting a fresh event into a well-formed session keeps it well
/// formed (for the usual non-negative durations), grows the timeline by
/// one, keeps the selection count, and steps the identifier allocator.
pub proof fn lemma_insert_spec_wf(c: CtxV, at: int, note: Note, dur: int)
    requires
        wf_ctx(c),
        dur >= 0,
    ensures
        wf_ctx(insert_spec(c, at, note, dur)),
        insert_spec(c, at, note, dur).events.len() == c.events.len() + 1,
        insert_spec(c, at, note, dur).sels.len() == c.sels.len(),
        insert_spec(c, at, note, dur).next_id == c.next_id + 1,
{
    broadcast use vstd::multiset::group_multiset_axioms;

    let shifted = c.events.map_values(|e: EventV| shifted_event(e, at, dur));
    let fresh = EventV { id: c.next_id, note: note, start: at, dur: dur };
    let r = insert_spec(c, at, note, dur);
    lemma_insert_spec_multiset(c, at, note, dur);
    lemma_resort_from_ensures(Seq::<EventV>::empty(), shifted);
    lemma_insort_ensures(resort(shifted), fresh);
    assert(sorted_by_key(Seq::<EventV>::empty()));
    assert(sorted_by_key(r.events));
    assert(uniq_ids(shifted.push(fresh))) by {
        assert forall|i: int, j: int|
            0 <= i < shifted.push(fresh).len() && 0 <= j < shifted.push(fresh).len() && i != j
            implies (#[trigger] shifted.push(fresh)[i]).id != (#[trigger] shifted.push(
            fresh,
        )[j]).id by {
            if i < shifted.len() {
                assert(shifted[i].id == c.events[i].id);
            }
            if j < shifted.len() {
                assert(shifted[j].id == c.events[j].id);
            }
        }
    }
    shifted.to_multiset_ensures();
    assert(r.events.to_multiset() =~= shifted.push(fresh).to_multiset());
    lemma_uniq_ids_permutation(shifted.push(fresh), r.events);
    r.events.to_multiset_ensures();
    shifted.push(fresh).to_multiset_ensures();
    assert forall|i: int| 0 <= i < r.events.len() implies (#[trigger] r.events[i]).id
        < r.next_id by {
        let x = r.events[i];
        assert(r.events.contains(x));
        assert(shifted.push(fresh).to_multiset().count(x) > 0);
        assert(shifted.push(fresh).contains(x));
        let k = choose|k: int| 0 <= k < shifted.push(fresh).len() && shifted.push(fresh)[k] == x;
        if k < shifted.len() {
            assert(shifted[k].id == c.events[k].id);
        }
    }
    assert forall|i: int| 0 <= i < r.sels.len() implies (#[trigger] r.sels[i]).begin
        <= r.sels[i].end by {
        assert(r.sels[i] == shifted_sel(c.sels[i], at, dur));
        assert(c.sels[i].begin <= c.sels[i].end);
    }
}

/// Whether a command never produces the one shape the selection invariant
/// cannot survive: an appended event of negative duration.
pub open spec fn cmd_duration_ok(cmd: CmdV) -> bool {
    match cmd {
        CmdV::Append { duration, .. } => duration >= 0,
        _ => true,
    }
}

/// Appending along a scope keeps the session well formed and grows the
/// timeline by one event per scope entry.
pub proof fn lemma_append_steps_wf(c: CtxV, note: Note, dur: int, ids: Seq<int>)
    requires
        wf_ctx(c),
        dur >= 0,
        append_steps(c, note, dur, ids) is Ok,
    ensures
        ({
            let m = append_steps(c, note, dur, ids)->Ok_0;
            &&& wf_ctx(m)
            &&& m.events.len() == c.events.len() + ids.len()
            &&& m.sels.len() == c.sels.len()
            &&& m.next_id == c.next_id + ids.len()
        }),
    decreases ids.len(),
{
    if ids.len() > 0 {
        let c1 = insert_spec(c, c.sels[ids[0]].end, note, dur);
        lemma_insert_spec_wf(c, c.sels[ids[0]].end, note, dur);
        lemma_append_steps_wf(c1, note, dur, ids.drop_first());
    }
}

/// Moving selections keeps the session well formed.
pub proof fn lemma_move_steps_wf(c: CtxV, delta: DeltaV, ids: Seq<int>)
    requires
        wf_ctx(c),
        move_steps(c, delta, ids) is Ok,
    ensures
        wf_ctx(move_steps(c, delta, ids)->Ok_0),
    decreases ids.len(),
{
    if ids.len() > 0 {
        let s = c.sels[ids[0]];
        let dp = crate::commands::resolve_delta(c.events, s.begin, delta)->Ok_0;
        let c1 = CtxV {
            events: c.events,
            sels: c.sels.update(ids[0], SelV { begin: s.begin + dp, end: s.end + dp }),
            next_id: c.next_id,
        };
        assert(wf_ctx(c1)) by {
            assert forall|i: int| 0 <= i < c1.sels.len() implies (#[trigger] c1.sels[i]).begin
                <= c1.sels[i].end by {
                if i != ids[0] {
                    assert(c1.sels[i] == c.sels[i]);
                }
            }
        }
        lemma_move_steps_wf(c1, delta, ids.drop_first());
    }
}

/// Moving selection ends keeps the session well formed: the swap restores
/// `begin <= end` whenever the end crosses the begin.
pub proof fn lemma_move_end_steps_wf(c: CtxV, delta: DeltaV, ids: Seq<int>)
    requires
        wf_ctx(c),
        move_end_steps(c, delta, ids) is Ok,
    ensures
        wf_ctx(move_end_steps(c, delta, ids)->Ok_0),
    decreases ids.len(),
{
    if ids.len() > 0 {
        let s = c.sels[ids[0]];
        let dp = crate::commands::resolve_delta(c.events, s.end, delta)->Ok_0;
        let ne = s.end + dp;
        let ns = if ne < s.begin {
            SelV { begin: ne, end: s.begin }
        } else {
            SelV { begin: s.begin, end: ne }
        };
        let c1 = CtxV { events: c.events, sels: c.sels.update(ids[0], ns), next_id: c.next_id };
        assert(wf_ctx(c1)) by {
            assert forall|i: int| 0 <= i < c1.sels.len() implies (#[trigger] c1.sels[i]).begin
                <= c1.sels[i].end by {
                if i != ids[0] {
                    assert(c1.sels[i] == c.sels[i]);
                }
            }
        }
        lemma_move_end_steps_wf(c1, delta, ids.drop_first());
    }
}

/// Moving selection contents keeps the session well formed: the rebuild
/// restores ascending order and no identifier is touched.
pub proof fn lemma_move_contents_steps_wf(c: CtxV, delta: DeltaV, ids: Seq<int>)
    requires
        wf_ctx(c),
        move_contents_steps(c, delta, ids) is Ok,
    ensures
        wf_ctx(move_contents_steps(c, delta, ids)->Ok_0),
    decreases ids.len(),
{
    broadcast use vstd::multiset::group_multiset_axioms;

    if ids.len() > 0 {
        let s = c.sels[ids[0]];
        let dp = crate::commands::resolve_delta(c.events, s.begin, delta)->Ok_0;
        let mapped = c.events.map_values(
            |e: EventV| crate::commands::ripple_shift(e, s.begin, s.end, dp),
        );
        let c1 = CtxV {
            events: resort(mapped),
            sels: c.sels.update(ids[0], SelV { begin: s.begin + dp, end: s.end + dp }),
            next_id: c.next_id,
        };
        lemma_resort_from_ensures(Seq::<EventV>::empty(), mapped);
        assert(sorted_by_key(Seq::<EventV>::empty()));
        assert(uniq_ids(mapped)) by {
            assert forall|i: int, j: int|
                0 <= i < mapped.len() && 0 <= j < mapped.len() && i != j implies (
            #[trigger] mapped[i]).id != (#[trigger] mapped[j]).id by {
                assert(mapped[i].id == c.events[i].id);
                assert(mapped[j].id == c.events[j].id);
            }
        }
        Seq::<EventV>::empty().to_multiset_ensures();
        assert(resort(mapped).to_multiset() =~= mapped.to_multiset());
        lemma_uniq_ids_permutation(mapped, c1.events);
        mapped.to_multiset_ensures();
        c1.events.to_multiset_ensures();
        assert(wf_ctx(c1)) by {
            assert forall|i: int| 0 <= i < c1.events.len() implies (#[trigger] c1.events[i]).id
                < c1.next_id by {
                let x = c1.events[i];
                assert(c1.events.contains(x));
                assert(c1.events.to_multiset().count(x) > 0);
                assert(mapped.to_multiset().count(x) > 0);
                assert(mapped.contains(x));
                let k = choose|k: int| 0 <= k < mapped.len() && mapped[k] == x;
                assert(mapped[k].id == c.events[k].id);
            }
            assert forall|i: int| 0 <= i < c1.sels.len() implies (#[trigger] c1.sels[i]).begin
                <= c1.sels[i].end by {
                if i != ids[0] {
                    assert(c1.sels[i] == c.sels[i]);
                }
            }
        }
        lemma_move_contents_steps_wf(c1, delta, ids.drop_first());
    }
}

/// Transposing keeps the session well formed: no start, identifier or
/// selection changes.
pub proof fn lemma_transpose_steps_wf(c: CtxV, k: int, ids: Seq<int>)
    requires
        wf_ctx(c),
        transpose_steps(c, k, ids) is Ok,
    ensures
        wf_ctx(transpose_steps(c, k, ids)->Ok_0),
    decreases ids.len(),
{
    if ids.len() > 0 {
        let s = c.sels[ids[0]];
        let mapped = transpose_events(c.events, s, k);
        let c1 = CtxV { events: mapped, sels: c.sels, next_id: c.next_id };
        assert(wf_ctx(c1)) by {
            assert forall|i: int, j: int| 0 <= i < j < mapped.len() implies ev_le(
                #[trigger] mapped[i],
                #[trigger] mapped[j],
            ) by {
                assert(ev_le(c.events[i], c.events[j]));
            }
            assert forall|i: int, j: int|
                0 <= i < mapped.len() && 0 <= j < mapped.len() && i != j implies (
            #[trigger] mapped[i]).id != (#[trigger] mapped[j]).id by {
                assert(mapped[i].id == c.events[i].id);
                assert(mapped[j].id == c.events[j].id);
            }
            assert forall|i: int| 0 <= i < mapped.len() implies (#[trigger] mapped[i]).id
                < c1.next_id by {
                assert(mapped[i].id == c.events[i].id);
            }
        }
        lemma_transpose_steps_wf(c1, k, ids.drop_first());
    }
}

/// Deleting keeps the session well formed: what remains is a subsequence
/// of the old timeline.
pub proof fn lemma_delete_steps_wf(c: CtxV, ids: Seq<int>)
    requires
        wf_ctx(c),
        delete_steps(c, ids) is Ok,
    ensures
        wf_ctx(delete_steps(c, ids)->Ok_0),
    decreases ids.len(),
{
    if ids.len() > 0 {
        let s = c.sels[ids[0]];
        let pred = |e: EventV| !ev_in_sel(e, s);
        let kept = c.events.filter(pred);
        lemma_filter_props(c.events, pred);
        let c1 = CtxV { events: kept, sels: c.sels, next_id: c.next_id };
        assert(wf_ctx(c1)) by {
            assert forall|i: int| 0 <= i < kept.len() implies (#[trigger] kept[i]).id
                < c1.next_id by {
                assert(kept.contains(kept[i]));
                assert(c.events.contains(kept[i]));
                let k = choose|k: int| 0 <= k < c.events.len() && c.events[k] == kept[i];
                assert(c.events[k].id < c.next_id);
            }
        }
        lemma_delete_steps_wf(c1, ids.drop_first());
    }
}

/// Every command that applies leaves the session well formed: in
/// particular the timeline stays ascending by start after every command.
pub proof fn lemma_apply_cmd_wf(c: CtxV, cmd: CmdV)
    requires
        wf_ctx(c),
        cmd_duration_ok(cmd),
        apply_cmd(c, cmd) is Ok,
    ensures
        wf_ctx(apply_cmd(c, cmd)->Ok_0),
{
    match cmd {
        CmdV::Append { note, duration, scope } => {
            lemma_append_steps_wf(c, note, duration, scope_ids(c, scope));
        },
        CmdV::Move { delta, scope } => {
            lemma_move_steps_wf(c, delta, scope);
        },
        CmdV::MoveEnd { delta, scope } => {
            lemma_move_end_steps_wf(c, delta, scope);
        },
        CmdV::MoveContents { delta, scope } => {
            lemma_move_contents_steps_wf(c, delta, scope);
        },
        CmdV::Transpose { semitones, scope } => {
            lemma_transpose_steps_wf(c, semitones, scope);
        },
        CmdV::Delete { scope } => {
            lemma_delete_steps_wf(c, scope);
        },
    }
}

/// A fresh session — empty timeline, one default selection at the origin,
/// identifiers from zero — is well formed; with the preservation lemma
/// above, every session reached from it by commands stays well formed.
pub proof fn lemma_default_session_wf()
    ensures
        wf_ctx(
            CtxV { events: Seq::<EventV>::empty(), sels: seq![SelV { begin: 0, end: 0 }], next_id: 0 },
        ),
{
}

/// A run of commands applied one after the other; the first failure stops
/// the run.
pub open spec fn apply_cmds(c: CtxV, cmds: Seq<CmdV>) -> Result<CtxV, EditError>
    decreases cmds.len(),
{
    if cmds.len() == 0 {
        Ok(c)
    } else {
        match apply_cmd(c, cmds[0]) {
            Err(e) => Err(e),
            Ok(c1) => apply_cmds(c1, cmds.drop_first()),
        }
    }
}

/// An append of non-negative duration that targets exactly one selection:
/// an explicit one-entry scope, or the default scope of a session that
/// owns a single selection.
pub open spec fn is_single_append(cmd: CmdV) -> bool {
    match cmd {
        CmdV::Append { duration, scope, .. } => duration >= 0 && match scope {
            Some(s) => s.len() == 1,
            None => true,
        },
        _ => false,
    }
}

/// For every sequence of appends on a single-selection session, the
/// timeline is ascending by start after each append, and the event count
/// after each append equals the count of appends so far.
pub proof fn lemma_append_sequence(c: CtxV, cmds: Seq<CmdV>)
    requires
        wf_ctx(c),
        c.sels.len() == 1,
        forall|i: int| 0 <= i < cmds.len() ==> is_single_append(#[trigger] cmds[i]),
        apply_cmds(c, cmds) is Ok,
    ensures
        forall|k: int|
            0 <= k <= cmds.len() ==> (#[trigger] apply_cmds(c, cmds.take(k)) matches Ok(m) && wf_ctx(m)
                && sorted_by_key(m.events) && m.events.len() == c.events.len() + k && m.sels.len()
                == 1),
    decreases cmds.len(),
{
    if cmds.len() == 0 {
        assert forall|k: int| 0 <= k <= cmds.len() implies (#[trigger] apply_cmds(c, cmds.take(k)) matches Ok(
            m,
        ) && wf_ctx(m) && sorted_by_key(m.events) && m.events.len() == c.events.len() + k
            && m.sels.len() == 1) by {
            assert(cmds.take(k) =~= cmds);
        }
    } else {
        let c1 = apply_cmd(c, cmds[0])->Ok_0;
        lemma_apply_cmd_wf(c, cmds[0]);
        match cmds[0] {
            CmdV::Append { note, duration, scope } => {
                lemma_append_steps_wf(c, note, duration, scope_ids(c, scope));
                assert(scope_ids(c, scope).len() == 1);
            },
            _ => {
                assert(false);
            },
        }
        assert(c1.events.len() == c.events.len() + 1);
        assert(c1.sels.len() == 1);
        lemma_append_sequence(c1, cmds.drop_first());
        assert forall|k: int| 0 <= k <= cmds.len() implies (#[trigger] apply_cmds(c, cmds.take(k)) matches Ok(
            m,
        ) && wf_ctx(m) && sorted_by_key(m.events) && m.events.len() == c.events.len() + k
            && m.sels.len() == 1) by {
            if k == 0 {
                assert(cmds.take(0) =~= Seq::<CmdV>::empty());
            } else {
                let t = cmds.take(k);
                assert(t[0] == cmds[0]);
                assert(t.drop_first() =~= cmds.drop_first().take(k - 1));
                assert(apply_cmds(c, t) == apply_cmds(c1, cmds.drop_first().take(k - 1)));
            }
        }
    }
}

/// Inserting an event at a position never changes the relative order of
/// two pre-existing events that both lie entirely before it or both at or
/// after it: the two events (shifted together, or not at all) reappear in
/// the same order.
pub proof fn lemma_insert_relative_order(c: CtxV, at: int, note: Note, dur: int, i: int, j: int)
    requires
        wf_ctx(c),
        0 <= i < j < c.events.len(),
        (c.events[i].start < at && c.events[j].start < at) || (c.events[i].start >= at
            && c.events[j].start >= at),
    ensures
        ({
            let r = insert_spec(c, at, note, dur);
            let a = shifted_event(c.events[i], at, dur);
            let b = shifted_event(c.events[j], at, dur);
            exists|ii: int, jj: int|
                0 <= ii < jj < r.events.len() && r.events[ii] == a && r.events[jj] == b
        }),
{
    broadcast use vstd::multiset::group_multiset_axioms;

    let r = insert_spec(c, at, note, dur);
    let shifted = c.events.map_values(|e: EventV| shifted_event(e, at, dur));
    let a = shifted_event(c.events[i], at, dur);
    let b = shifted_event(c.events[j], at, dur);
    assert(ev_le(c.events[i], c.events[j]));
    assert(c.events[i].id != c.events[j].id);
    assert(ev_lt(a, b));
    lemma_insert_spec_multiset(c, at, note, dur);
    lemma_resort_from_ensures(Seq::<EventV>::empty(), shifted);
    lemma_insort_ensures(
        resort(shifted),
        EventV { id: c.next_id, note: note, start: at, dur: dur },
    );
    assert(sorted_by_key(Seq::<EventV>::empty()));
    assert(sorted_by_key(r.events));
    shifted.to_multiset_ensures();
    r.events.to_multiset_ensures();
    assert(shifted[i] == a);
    assert(shifted[j] == b);
    assert(shifted.contains(a));
    assert(shifted.contains(b));
    assert(shifted.to_multiset().count(a) > 0);
    assert(shifted.to_multiset().count(b) > 0);
    assert(r.events.to_multiset().count(a) > 0);
    assert(r.events.to_multiset().count(b) > 0);
    assert(r.events.contains(a));
    assert(r.events.contains(b));
    let ii = choose|ii: int| 0 <= ii < r.events.len() && r.events[ii] == a;
    let jj = choose|jj: int| 0 <= jj < r.events.len() && r.events[jj] == b;
    assert(ii != jj);
    if jj < ii {
        assert(ev_le(r.events[jj], r.events[ii]));
        assert(false);
    }
    assert(0 <= ii < jj < r.events.len() && r.events[ii] == a && r.events[jj] == b);
}

/// Transposing a selection's contents up by an interval and then down by
/// the same interval restores every event exactly, whenever every event in
/// range is spelled canonically (as every pitch the editor itself writes
/// is). A flat spelling is the exception: it comes back respelled, since
/// transposition never writes flats.
pub proof fn lemma_transpose_round_trip_cmd(c: CtxV, k: int, id: int)
    requires
        0 <= id < c.sels.len(),
        forall|i: int|
            0 <= i < c.events.len() && ev_in_sel(#[trigger] c.events[i], c.sels[id])
                ==> crate::pitch::is_canonical(c.events[i].note),
        apply_cmd(c, CmdV::Transpose { semitones: k, scope: seq![id] }) is Ok,
    ensures
        ({
            let c1 = apply_cmd(c, CmdV::Transpose { semitones: k, scope: seq![id] })->Ok_0;
            apply_cmd(c1, CmdV::Transpose { semitones: -k, scope: seq![id] }) == Ok::<
                CtxV,
                EditError,
            >(c)
        }),
{
    let scope = seq![id];
    let s = c.sels[id];
    assert(scope[0] == id);
    assert(scope.drop_first() =~= Seq::<int>::empty());
    let mapped = transpose_events(c.events, s, k);
    let c1 = CtxV { events: mapped, sels: c.sels, next_id: c.next_id };
    assert(all_transposable(c.events, s, k)) by {
        if !all_transposable(c.events, s, k) {
            assert(transpose_steps(c, k, scope) == Err::<CtxV, EditError>(
                EditError::PitchOutOfRange,
            ));
        }
    }
    assert(transpose_steps(c1, k, scope.drop_first()) == Ok::<CtxV, EditError>(c1));
    assert(transpose_steps(c, k, scope) == Ok::<CtxV, EditError>(c1));
    assert forall|i: int|
        0 <= i < mapped.len() && ev_in_sel(#[trigger] mapped[i], s) implies mapped[i].note.can_transpose(
        -k,
    ) by {
        assert(mapped[i].start == c.events[i].start);
        assert(ev_in_sel(c.events[i], s));
        crate::pitch::lemma_transpose_round_trip(c.events[i].note, k);
    }
    assert forall|i: int|
        0 <= i < mapped.len() && ev_in_sel(#[trigger] c1.events[i], c1.sels[id]) implies c1.events[i].note.can_transpose(
        -k,
    ) by {
        assert(mapped[i] == c1.events[i]);
        assert(ev_in_sel(mapped[i], s));
    }
    assert(all_transposable(c1.events, c1.sels[id], -k));
    let back = transpose_events(c1.events, c1.sels[id], -k);
    assert(back =~= c.events) by {
        assert forall|i: int| 0 <= i < c.events.len() implies back[i] == c.events[i] by {
            if ev_in_sel(c.events[i], s) {
                crate::pitch::lemma_transpose_round_trip(c.events[i].note, k);
                assert(mapped[i].start == c.events[i].start);
                assert(ev_in_sel(mapped[i], s));
            } else {
                assert(mapped[i] == c.events[i]);
            }
        }
    }
    let c2 = CtxV { events: back, sels: c1.sels, next_id: c1.next_id };
    assert(transpose_steps(c2, -k, scope.drop_first()) == Ok::<CtxV, EditError>(c2));
    assert(transpose_steps(c1, -k, scope) == Ok::<CtxV, EditError>(c2));
    assert(c2 == c);
}

/// Deleting removes exactly the events whose start lies in one of the
/// scoped selections' ranges, and keeps every other event whole — its
/// start in particular numerically unchanged. Selections and the
/// identifier allocator are untouched.
pub proof fn lemma_delete_exact(c: CtxV, ids: Seq<int>)
    requires
        delete_steps(c, ids) is Ok,
    ensures
        ({
            let m = delete_steps(c, ids)->Ok_0;
            &&& m.sels == c.sels
            &&& m.next_id == c.next_id
            &&& forall|x: EventV|
                #[trigger] m.events.contains(x) <==> (c.events.contains(x) && forall|k: int|
                    0 <= k < ids.len() ==> !ev_in_sel(x, c.sels[ids[k]]))
        }),
    decreases ids.len(),
{
    let m = delete_steps(c, ids)->Ok_0;
    if ids.len() == 0 {
        assert forall|x: EventV| #[trigger] m.events.contains(x) <==> (c.events.contains(x)
            && forall|k: int| 0 <= k < ids.len() ==> !ev_in_sel(x, c.sels[ids[k]])) by {}
    } else {
        let s = c.sels[ids[0]];
        let pred = |e: EventV| !ev_in_sel(e, s);
        let c1 = CtxV { events: c.events.filter(pred), sels: c.sels, next_id: c.next_id };
        lemma_filter_props(c.events, pred);
        lemma_delete_exact(c1, ids.drop_first());
        assert forall|x: EventV| #[trigger] m.events.contains(x) <==> (c.events.contains(x)
            && forall|k: int| 0 <= k < ids.len() ==> !ev_in_sel(x, c.sels[ids[k]])) by {
            let rest = ids.drop_first();
            if m.events.contains(x) {
                assert(c1.events.contains(x) && forall|k: int|
                    0 <= k < rest.len() ==> !ev_in_sel(x, c1.sels[rest[k]]));
                assert(c.events.contains(x) && pred(x));
                assert forall|k: int| 0 <= k < ids.len() implies !ev_in_sel(
                    x,
                    c.sels[ids[k]],
                ) by {
                    if k > 0 {
                        assert(rest[k - 1] == ids[k]);
                        assert(!ev_in_sel(x, c1.sels[rest[k - 1]]));
                    }
                }
            }
            if c.events.contains(x) && (forall|k: int|
                0 <= k < ids.len() ==> !ev_in_sel(x, c.sels[ids[k]])) {
                assert(!ev_in_sel(x, c.sels[ids[0]]));
                assert(pred(x));
                assert(c1.events.contains(x));
                assert forall|k: int| 0 <= k < rest.len() implies !ev_in_sel(
                    x,
                    c1.sels[rest[k]],
                ) by {
                    assert(rest[k] == ids[k + 1]);
                    assert(!ev_in_sel(x, c.sels[ids[k + 1]]));
                }
                assert(m.events.contains(x));
            }
        }
    }
}

} // verus!
