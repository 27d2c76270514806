use music_editor::Accidental;
use music_editor::AppendNote;
use music_editor::Context;
use music_editor::DeleteSelections;
use music_editor::Duration;
use music_editor::EditError;
use music_editor::Event;
use music_editor::Location;
use music_editor::MoveSelections;
use music_editor::MoveSelectionsContents;
use music_editor::MoveSelectionsEnd;
use music_editor::Note;
use music_editor::Octave;
use music_editor::Operation;
use music_editor::Pitch;
use music_editor::PitchName;
use music_editor::Pulse;
use music_editor::Score;
use music_editor::Selection;
use music_editor::Selections;
use music_editor::TransposeSelectionsContents;

fn note(class: PitchName, octave: u32) -> Note {
    Note { pitch: Pitch { class, accidental: Accidental::Natural }, octave: Octave(octave) }
}

fn event(id: u32, n: Note, start: i32, dur: i32) -> Event {
    Event { event_id: id, note: n, duration: Pulse(dur), start: Pulse(start) }
}

fn selection(begin: i32, end: i32) -> Selection {
    Selection { begin: Location(Pulse(begin)), end: Location(Pulse(end)) }
}

fn session(events: Vec<Event>, sels: Vec<Selection>, next_id: u32) -> Context {
    Context { score: Score { events }, selections: Selections(sels), next_id }
}

#[test]
fn pulse_arithmetic() {
    assert_eq!(Pulse(3).plus(Pulse(4)), Pulse(7));
    assert_eq!(Pulse(3).minus(Pulse(4)), Pulse(-1));
    assert_eq!(Pulse::default(), Pulse(0));
}

#[test]
fn insert_keeps_relative_order_on_both_sides_of_the_position() {
    let c4 = note(PitchName::C, 4);
    let mut ctx = session(
        vec![
            event(0, c4, 0, 1),
            event(1, c4, 2, 1),
            event(2, c4, 10, 1),
            event(3, c4, 12, 1),
        ],
        vec![selection(0, 0)],
        4,
    );
    ctx.insert_event_at_location(Location(Pulse(5)), event(0, c4, 5, 8)).unwrap();
    let ids: Vec<u32> = ctx.score.events.iter().map(|e| e.id()).collect();
    // both events before the position keep their order, and so do both
    // events at or after it
    assert_eq!(ids, vec![0, 1, 4, 2, 3]);
    assert_eq!(ctx.score.events[2].start, Pulse(5));
    assert_eq!(ctx.score.events[3].start, Pulse(18));
    assert_eq!(ctx.score.events[4].start, Pulse(20));
}

#[test]
fn fresh_session_has_one_selection_at_the_origin() {
    let ctx = Context::default();
    assert_eq!(ctx.score.events.len(), 0);
    assert_eq!(ctx.selections.0, vec![selection(0, 0)]);
    assert_eq!(ctx.next_id, 0);
}

#[test]
fn two_appends_on_a_fresh_session() {
    let mut ctx = Context::default();
    let c4 = note(PitchName::C, 4);
    let d4 = note(PitchName::D, 4);
    AppendNote { note: c4, duration: Pulse(4), selections: None }.apply(&mut ctx).unwrap();
    AppendNote { note: d4, duration: Pulse(4), selections: None }.apply(&mut ctx).unwrap();
    assert_eq!(ctx.score.events, vec![event(0, c4, 0, 4), event(1, d4, 4, 4)]);
    assert_eq!(ctx.selections.0, vec![selection(8, 8)]);
    assert_eq!(ctx.next_id, 2);
}

#[test]
fn append_count_matches_append_calls() {
    let mut ctx = Context::default();
    for i in 0..10u32 {
        AppendNote { note: note(PitchName::A, 4), duration: Pulse(2), selections: None }
            .apply(&mut ctx)
            .unwrap();
        assert_eq!(ctx.score.events.len() as u32, i + 1);
        for w in ctx.score.events.windows(2) {
            assert!(w[0].start.0 <= w[1].start.0);
        }
    }
}

#[test]
fn insert_shifts_events_and_selections_at_or_after_the_position() {
    let c4 = note(PitchName::C, 4);
    let mut ctx = session(
        vec![event(0, c4, 0, 4), event(1, c4, 4, 4)],
        vec![selection(0, 2), selection(4, 8)],
        2,
    );
    ctx.insert_event_at_location(Location(Pulse(4)), event(0, c4, 4, 2)).unwrap();
    assert_eq!(
        ctx.score.events,
        vec![event(0, c4, 0, 4), event(2, c4, 4, 2), event(1, c4, 6, 4)],
    );
    assert_eq!(ctx.selections.0, vec![selection(0, 2), selection(6, 10)]);
    assert_eq!(ctx.next_id, 3);
}

#[test]
fn simultaneous_events_are_both_kept() {
    let c4 = note(PitchName::C, 4);
    let mut ctx = Context::default();
    ctx.insert_event_at_location(Location(Pulse(0)), event(0, c4, 0, 0)).unwrap();
    ctx.insert_event_at_location(Location(Pulse(0)), event(0, c4, 0, 0)).unwrap();
    assert_eq!(ctx.score.events, vec![event(0, c4, 0, 0), event(1, c4, 0, 0)]);
}

#[test]
fn move_by_one_event_back() {
    let c4 = note(PitchName::C, 4);
    let d4 = note(PitchName::D, 4);
    let mut ctx = session(
        vec![event(0, c4, 0, 4), event(1, d4, 4, 4)],
        vec![selection(4, 4)],
        2,
    );
    MoveSelections { delta: Duration::Event(-1), selections: vec![0] }.apply(&mut ctx).unwrap();
    assert_eq!(ctx.selections.0, vec![selection(0, 0)]);
    assert_eq!(ctx.score.events.len(), 2);
}

#[test]
fn move_by_pulses_shifts_both_bounds() {
    let mut ctx = session(vec![], vec![selection(2, 6)], 0);
    MoveSelections { delta: Duration::Pulse(Pulse(3)), selections: vec![0] }
        .apply(&mut ctx)
        .unwrap();
    assert_eq!(ctx.selections.0, vec![selection(5, 9)]);
}

#[test]
fn move_end_swaps_when_it_crosses_the_begin() {
    let mut ctx = session(vec![], vec![selection(4, 6)], 0);
    MoveSelectionsEnd { delta: Duration::Pulse(Pulse(-5)), selections: vec![0] }
        .apply(&mut ctx)
        .unwrap();
    assert_eq!(ctx.selections.0, vec![selection(1, 4)]);
}

#[test]
fn move_end_without_crossing_keeps_the_begin() {
    let mut ctx = session(vec![], vec![selection(4, 6)], 0);
    MoveSelectionsEnd { delta: Duration::Pulse(Pulse(2)), selections: vec![0] }
        .apply(&mut ctx)
        .unwrap();
    assert_eq!(ctx.selections.0, vec![selection(4, 8)]);
}

#[test]
fn move_contents_shifts_the_block_and_ripples_the_overtaken() {
    let c4 = note(PitchName::C, 4);
    let mut ctx = session(
        vec![event(0, c4, 0, 2), event(1, c4, 4, 2), event(2, c4, 8, 2)],
        vec![selection(0, 4)],
        3,
    );
    MoveSelectionsContents { delta: Duration::Pulse(Pulse(4)), selections: vec![0] }
        .apply(&mut ctx)
        .unwrap();
    // the in-range events at 0 and 4 move to 4 and 8; the event at 8 lies
    // at or before end + delta = 8 and is pushed back to 4
    assert_eq!(
        ctx.score.events,
        vec![event(0, c4, 4, 2), event(2, c4, 4, 2), event(1, c4, 8, 2)],
    );
    assert_eq!(ctx.selections.0, vec![selection(4, 8)]);
}

#[test]
fn transpose_an_octave_up() {
    let c4 = note(PitchName::C, 4);
    let mut ctx = session(vec![event(0, c4, 0, 4)], vec![selection(0, 0)], 1);
    TransposeSelectionsContents { semitones: 12, selections: vec![0] }.apply(&mut ctx).unwrap();
    assert_eq!(ctx.score.events, vec![event(0, note(PitchName::C, 5), 0, 4)]);
    assert_eq!(ctx.selections.0, vec![selection(0, 0)]);
}

#[test]
fn transpose_round_trip_restores_the_timeline() {
    let c4 = note(PitchName::C, 4);
    let e4 = note(PitchName::E, 4);
    let before = vec![event(0, c4, 0, 4), event(1, e4, 4, 4)];
    let mut ctx = session(before.clone(), vec![selection(0, 4)], 2);
    TransposeSelectionsContents { semitones: 12, selections: vec![0] }.apply(&mut ctx).unwrap();
    TransposeSelectionsContents { semitones: -12, selections: vec![0] }.apply(&mut ctx).unwrap();
    assert_eq!(ctx.score.events, before);
}

#[test]
fn transpose_leaves_out_of_range_events_alone() {
    let c4 = note(PitchName::C, 4);
    let d4 = note(PitchName::D, 4);
    let mut ctx = session(
        vec![event(0, c4, 0, 4), event(1, d4, 4, 4)],
        vec![selection(0, 0)],
        2,
    );
    TransposeSelectionsContents { semitones: 2, selections: vec![0] }.apply(&mut ctx).unwrap();
    assert_eq!(
        ctx.score.events,
        vec![event(0, d4, 0, 4), event(1, d4, 4, 4)],
    );
}

#[test]
fn delete_removes_exactly_the_range_and_shifts_nothing() {
    let c4 = note(PitchName::C, 4);
    let d4 = note(PitchName::D, 4);
    let mut ctx = session(
        vec![event(0, c4, 0, 4), event(1, d4, 4, 4)],
        vec![selection(0, 0)],
        2,
    );
    DeleteSelections { selections: vec![0] }.apply(&mut ctx).unwrap();
    assert_eq!(ctx.score.events, vec![event(1, d4, 4, 4)]);
    assert_eq!(ctx.selections.0, vec![selection(0, 0)]);
}

#[test]
fn selection_index_out_of_range_is_reported_and_nothing_changes() {
    let mut ctx = Context::default();
    let r = MoveSelections { delta: Duration::Pulse(Pulse(1)), selections: vec![5] }
        .apply(&mut ctx);
    assert_eq!(r, Err(EditError::SelectionIndexOutOfRange));
    assert_eq!(ctx.selections.0, vec![selection(0, 0)]);
    let r2 = DeleteSelections { selections: vec![1] }.apply(&mut ctx);
    assert_eq!(r2, Err(EditError::SelectionIndexOutOfRange));
    let r3 = TransposeSelectionsContents { semitones: 1, selections: vec![3] }.apply(&mut ctx);
    assert_eq!(r3, Err(EditError::SelectionIndexOutOfRange));
}

#[test]
fn event_delta_on_an_empty_timeline_is_reported() {
    let mut ctx = Context::default();
    let r = MoveSelections { delta: Duration::Event(1), selections: vec![0] }.apply(&mut ctx);
    assert_eq!(r, Err(EditError::EmptyTimelineNavigation));
    assert_eq!(ctx.selections.0, vec![selection(0, 0)]);
    let r2 = MoveSelectionsEnd { delta: Duration::Event(-1), selections: vec![0] }
        .apply(&mut ctx);
    assert_eq!(r2, Err(EditError::EmptyTimelineNavigation));
}

#[test]
fn transpose_below_the_origin_is_reported_and_nothing_changes() {
    let c0 = note(PitchName::C, 0);
    let before = vec![event(0, c0, 0, 4)];
    let mut ctx = session(before.clone(), vec![selection(0, 0)], 1);
    let r = TransposeSelectionsContents { semitones: -12, selections: vec![0] }.apply(&mut ctx);
    assert_eq!(r, Err(EditError::PitchOutOfRange));
    assert_eq!(ctx.score.events, before);
}

#[test]
fn overflowing_moves_are_reported_and_nothing_changes() {
    let mut ctx = session(vec![], vec![selection(1, 1)], 0);
    let r = MoveSelections { delta: Duration::Pulse(Pulse(i32::MAX)), selections: vec![0] }
        .apply(&mut ctx);
    assert_eq!(r, Err(EditError::ArithmeticOverflow));
    assert_eq!(ctx.selections.0, vec![selection(1, 1)]);
}

#[test]
fn overflowing_append_is_reported_and_nothing_changes() {
    let c4 = note(PitchName::C, 4);
    let mut ctx = session(
        vec![event(0, c4, i32::MAX - 1, 4)],
        vec![selection(0, i32::MAX - 1)],
        1,
    );
    let r = AppendNote { note: c4, duration: Pulse(4), selections: None }.apply(&mut ctx);
    assert_eq!(r, Err(EditError::ArithmeticOverflow));
    assert_eq!(ctx.score.events, vec![event(0, c4, i32::MAX - 1, 4)]);
    assert_eq!(ctx.next_id, 1);
}

#[test]
fn events_in_selection_filters_by_start() {
    let c4 = note(PitchName::C, 4);
    let ctx = session(
        vec![event(0, c4, 0, 4), event(1, c4, 4, 4), event(2, c4, 8, 4)],
        vec![selection(2, 8)],
        3,
    );
    let inside = ctx.events_in_selection(0);
    assert_eq!(inside, vec![event(1, c4, 4, 4), event(2, c4, 8, 4)]);
    assert_eq!(inside[0].id(), 1);
}

#[test]
fn append_with_explicit_scope_targets_those_selections_in_order() {
    let c4 = note(PitchName::C, 4);
    let mut ctx = session(vec![], vec![selection(0, 0), selection(10, 10)], 0);
    AppendNote { note: c4, duration: Pulse(4), selections: Some(vec![1]) }
        .apply(&mut ctx)
        .unwrap();
    assert_eq!(ctx.score.events, vec![event(0, c4, 10, 4)]);
    // the selection's begin sits exactly at the insertion point, so it
    // shifts along with the end
    assert_eq!(ctx.selections.0, vec![selection(0, 0), selection(14, 14)]);
}
