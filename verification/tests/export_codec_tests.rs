use music_editor::mei;
use music_editor::Accidental;
use music_editor::Context;
use music_editor::EditError;
use music_editor::Event;
use music_editor::Location;
use music_editor::Note;
use music_editor::Octave;
use music_editor::Pitch;
use music_editor::PitchName;
use music_editor::Pulse;
use music_editor::Score;
use music_editor::Selection;
use music_editor::Selections;

fn note(class: PitchName, accidental: Accidental, octave: u32) -> Note {
    Note { pitch: Pitch { class, accidental }, octave: Octave(octave) }
}

fn event(id: u32, n: Note, start: i32, dur: i32) -> Event {
    Event { event_id: id, note: n, duration: Pulse(dur), start: Pulse(start) }
}

fn selection(begin: i32, end: i32) -> Selection {
    Selection { begin: Location(Pulse(begin)), end: Location(Pulse(end)) }
}

fn the_layer(measure: &mei::Measure) -> &mei::Layer {
    assert_eq!(measure.n, Some(1));
    assert_eq!(measure.staves.len(), 1);
    assert_eq!(measure.staves[0].layers.len(), 1);
    &measure.staves[0].layers[0]
}

#[test]
fn export_of_two_quarter_notes() {
    let score = Score {
        events: vec![
            event(0, note(PitchName::C, Accidental::Natural, 4), 0, 4),
            event(1, note(PitchName::D, Accidental::Sharp, 5), 4, 4),
        ],
    };
    let m = score.to_mei().unwrap();
    assert_eq!(m.mei_head, Some(mei::MeiHead {}));
    let music = m.music.unwrap();
    let body = music.body.unwrap();
    assert_eq!(body.mdivs.len(), 1);
    let sc = body.mdivs.into_iter().next().unwrap().score.unwrap();
    let sd = sc.score_def.unwrap();
    assert_eq!(sd.meter_count, Some(4));
    assert_eq!(sd.meter_unit, Some(4));
    assert_eq!(sd.key_sig.as_deref(), Some("0"));
    assert_eq!(sd.key_mode.as_deref(), Some("major"));
    let sdef = sd.staff_grp.unwrap().staff_def.unwrap();
    assert_eq!(sdef.n, Some(1));
    assert_eq!(sdef.clef_line, Some(2));
    assert_eq!(sdef.clef_shape.as_deref(), Some("G"));
    assert_eq!(sdef.clef_dis_place.as_deref(), Some("below"));
    assert_eq!(sdef.lines, Some(5));
    assert_eq!(sc.sections.len(), 1);
    let measures = &sc.sections[0].measures;
    // the two quarter notes end at pulses four and eight, short of the
    // sixteen-pulse measure boundary: one trailing partial measure holds
    // them both
    assert_eq!(measures.len(), 1);
    let l0 = the_layer(&measures[0]);
    assert_eq!(l0.n, Some(1));
    assert_eq!(l0.events.len(), 2);
    match &l0.events[0] {
        mei::EventLike::Note(n) => {
            assert_eq!(n.xml_id.as_deref(), Some("note_0"));
            assert_eq!(n.pname.as_deref(), Some("c"));
            assert_eq!(n.accid, None);
            assert_eq!(n.oct, 4);
            assert_eq!(n.dur, Some(4));
        },
        other => panic!("expected a note, got {:?}", other),
    }
    match &l0.events[1] {
        mei::EventLike::Note(n) => {
            assert_eq!(n.xml_id.as_deref(), Some("note_1"));
            assert_eq!(n.pname.as_deref(), Some("d"));
            assert_eq!(n.accid.as_deref(), Some("s"));
            assert_eq!(n.oct, 5);
            assert_eq!(n.dur, Some(4));
        },
        other => panic!("expected a note, got {:?}", other),
    }
}

#[test]
fn export_closes_a_measure_every_four_beats() {
    // four quarter notes fill one 4/4 measure exactly; the fifth starts
    // the next measure, whose voice is numbered two
    let score = Score {
        events: vec![
            event(0, note(PitchName::C, Accidental::Natural, 4), 0, 4),
            event(1, note(PitchName::D, Accidental::Natural, 4), 4, 4),
            event(2, note(PitchName::E, Accidental::Natural, 4), 8, 4),
            event(3, note(PitchName::F, Accidental::Natural, 4), 12, 4),
            event(4, note(PitchName::G, Accidental::Natural, 4), 16, 4),
        ],
    };
    let m = score.to_mei().unwrap();
    let sc = m.music.unwrap().body.unwrap().mdivs.into_iter().next().unwrap().score.unwrap();
    let measures = &sc.sections[0].measures;
    assert_eq!(measures.len(), 2);
    let l0 = the_layer(&measures[0]);
    assert_eq!(l0.n, Some(1));
    assert_eq!(l0.events.len(), 4);
    let l1 = the_layer(&measures[1]);
    assert_eq!(l1.n, Some(2));
    assert_eq!(l1.events.len(), 1);
    match &l1.events[0] {
        mei::EventLike::Note(n) => assert_eq!(n.xml_id.as_deref(), Some("note_4")),
        other => panic!("expected a note, got {:?}", other),
    }
}

#[test]
fn export_closes_a_measure_after_a_whole_note() {
    let score = Score {
        events: vec![event(3, note(PitchName::B, Accidental::Natural, 2), 0, 16)],
    };
    let m = score.to_mei().unwrap();
    let sc = m.music.unwrap().body.unwrap().mdivs.into_iter().next().unwrap().score.unwrap();
    let measures = &sc.sections[0].measures;
    assert_eq!(measures.len(), 1);
    let l0 = the_layer(&measures[0]);
    assert_eq!(l0.n, Some(1));
    match &l0.events[0] {
        mei::EventLike::Note(n) => {
            assert_eq!(n.xml_id.as_deref(), Some("note_3"));
            // sixteen pulses notate as a whole note
            assert_eq!(n.dur, Some(1));
        },
        other => panic!("expected a note, got {:?}", other),
    }
}

#[test]
fn export_fills_gaps_with_rests() {
    let score = Score {
        events: vec![event(7, note(PitchName::E, Accidental::Natural, 3), 4, 4)],
    };
    let m = score.to_mei().unwrap();
    let sc = m.music.unwrap().body.unwrap().mdivs.into_iter().next().unwrap().score.unwrap();
    let measures = &sc.sections[0].measures;
    assert_eq!(measures.len(), 1);
    let layer = the_layer(&measures[0]);
    assert_eq!(layer.events.len(), 2);
    match &layer.events[0] {
        mei::EventLike::Rest(r) => assert_eq!(r.dur, Some(4)),
        other => panic!("expected a rest, got {:?}", other),
    }
    match &layer.events[1] {
        mei::EventLike::Note(n) => assert_eq!(n.xml_id.as_deref(), Some("note_7")),
        other => panic!("expected a note, got {:?}", other),
    }
}

#[test]
fn export_emits_a_trailing_partial_measure() {
    let score = Score {
        events: vec![event(0, note(PitchName::A, Accidental::Natural, 4), 0, 2)],
    };
    let m = score.to_mei().unwrap();
    let sc = m.music.unwrap().body.unwrap().mdivs.into_iter().next().unwrap().score.unwrap();
    // the note ends at pulse two, off the measure boundary, and is still
    // emitted
    assert_eq!(sc.sections[0].measures.len(), 1);
    assert_eq!(the_layer(&sc.sections[0].measures[0]).events.len(), 1);
}

#[test]
fn export_rejects_unrepresentable_durations() {
    let score = Score {
        events: vec![event(0, note(PitchName::A, Accidental::Natural, 4), 0, 3)],
    };
    assert_eq!(score.to_mei().unwrap_err(), EditError::UnrepresentableDuration);
    let gap = Score {
        events: vec![event(0, note(PitchName::A, Accidental::Natural, 4), 5, 4)],
    };
    assert_eq!(gap.to_mei().unwrap_err(), EditError::UnrepresentableDuration);
    let zero = Score {
        events: vec![event(0, note(PitchName::A, Accidental::Natural, 4), 0, 0)],
    };
    assert_eq!(zero.to_mei().unwrap_err(), EditError::UnrepresentableDuration);
}

#[test]
fn empty_timeline_exports_no_measures() {
    let score = Score { events: vec![] };
    let m = score.to_mei().unwrap();
    let sc = m.music.unwrap().body.unwrap().mdivs.into_iter().next().unwrap().score.unwrap();
    assert_eq!(sc.sections.len(), 1);
    assert_eq!(sc.sections[0].measures.len(), 0);
}

#[test]
fn codec_round_trips_a_session() {
    let original = Context {
        score: Score {
            events: vec![
                event(0, note(PitchName::C, Accidental::Natural, 4), 0, 4),
                event(1, note(PitchName::G, Accidental::Flat, 7), -3, 16),
                event(5, note(PitchName::B, Accidental::Sharp, 0), 4, 1),
            ],
        },
        selections: Selections(vec![selection(0, 8), selection(-2, -1)]),
        next_id: 6,
    };
    let bytes = original.encode();
    let decoded = Context::decode(&bytes).unwrap();
    assert_eq!(decoded.score.events, original.score.events);
    assert_eq!(decoded.selections.0, original.selections.0);
    assert_eq!(decoded.next_id, original.next_id);
}

#[test]
fn codec_round_trips_a_fresh_session() {
    let original = Context::default();
    let bytes = original.encode();
    let decoded = Context::decode(&bytes).unwrap();
    assert_eq!(decoded.score.events, original.score.events);
    assert_eq!(decoded.selections.0, original.selections.0);
    assert_eq!(decoded.next_id, original.next_id);
}

#[test]
fn decode_rejects_short_and_inconsistent_records() {
    assert!(Context::decode(&vec![1u8, 2, 3]).is_none());
    let mut bytes = Context::default().encode();
    bytes.push(0);
    assert!(Context::decode(&bytes).is_none());
    // a record whose pitch-class code is meaningless
    let mut ctx = Context::default();
    ctx.score.events.push(event(0, note(PitchName::A, Accidental::Natural, 4), 0, 4));
    let mut enc = ctx.encode();
    // the class code sits four bytes into the first event record
    enc[12] = 99;
    assert!(Context::decode(&enc).is_none());
}
