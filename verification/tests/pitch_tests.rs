use music_editor::Accidental;
use music_editor::Note;
use music_editor::Octave;
use music_editor::Pitch;
use music_editor::PitchName;

fn note(class: PitchName, accidental: Accidental, octave: u32) -> Note {
    Note { pitch: Pitch { class, accidental }, octave: Octave(octave) }
}

#[test]
fn semitone_table_is_the_fixed_one() {
    assert_eq!(note(PitchName::A, Accidental::Natural, 0).semitones(), 0);
    assert_eq!(note(PitchName::B, Accidental::Natural, 0).semitones(), 2);
    assert_eq!(note(PitchName::C, Accidental::Natural, 0).semitones(), 3);
    assert_eq!(note(PitchName::D, Accidental::Natural, 0).semitones(), 5);
    assert_eq!(note(PitchName::E, Accidental::Natural, 0).semitones(), 7);
    assert_eq!(note(PitchName::F, Accidental::Natural, 0).semitones(), 8);
    assert_eq!(note(PitchName::G, Accidental::Natural, 0).semitones(), 10);
    assert_eq!(note(PitchName::C, Accidental::Sharp, 4).semitones(), 4 * 12 + 4);
    assert_eq!(note(PitchName::B, Accidental::Flat, 1).semitones(), 12 + 1);
}

#[test]
fn from_semitones_spells_with_sharps_only() {
    assert_eq!(Note::from_semitones(0), note(PitchName::A, Accidental::Natural, 0));
    assert_eq!(Note::from_semitones(1), note(PitchName::A, Accidental::Sharp, 0));
    assert_eq!(Note::from_semitones(11), note(PitchName::G, Accidental::Sharp, 0));
    assert_eq!(Note::from_semitones(51), note(PitchName::C, Accidental::Natural, 4));
    assert_eq!(Note::from_semitones(63), note(PitchName::C, Accidental::Natural, 5));
}

#[test]
fn successor_and_precurser_step_one_semitone() {
    let c4 = note(PitchName::C, Accidental::Natural, 4);
    assert_eq!(c4.successor(), note(PitchName::C, Accidental::Sharp, 4));
    assert_eq!(c4.precurser(), note(PitchName::B, Accidental::Natural, 4));
    let g_sharp = note(PitchName::G, Accidental::Sharp, 2);
    assert_eq!(g_sharp.successor(), note(PitchName::A, Accidental::Natural, 3));
}

#[test]
fn transpose_walks_semitones() {
    let mut n = note(PitchName::C, Accidental::Natural, 4);
    n.transpose(12);
    assert_eq!(n, note(PitchName::C, Accidental::Natural, 5));
    n.transpose(-12);
    assert_eq!(n, note(PitchName::C, Accidental::Natural, 4));
}

#[test]
fn transpose_round_trip_restores_canonical_notes() {
    for s in 0u32..60 {
        let original = Note::from_semitones(s);
        let mut n = original;
        n.transpose(7);
        n.transpose(-7);
        assert_eq!(n, original);
    }
}

#[test]
fn transpose_respells_flats_with_sharps() {
    let mut n = note(PitchName::B, Accidental::Flat, 1);
    n.transpose(1);
    assert_eq!(n, note(PitchName::B, Accidental::Natural, 1));
    let mut m = note(PitchName::E, Accidental::Flat, 3);
    m.transpose(12);
    assert_eq!(m, note(PitchName::D, Accidental::Sharp, 4));
}

#[test]
fn try_transpose_rejects_steps_below_the_origin() {
    let c0 = note(PitchName::C, Accidental::Natural, 0);
    assert_eq!(c0.try_transpose(-3), Some(note(PitchName::A, Accidental::Natural, 0)));
    assert_eq!(c0.try_transpose(-4), None);
    let a_flat = note(PitchName::A, Accidental::Flat, 4);
    assert_eq!(a_flat.try_transpose(1), None);
    assert_eq!(a_flat.try_transpose(0), Some(a_flat));
}

#[test]
fn default_note_is_a_natural_octave_four() {
    assert_eq!(Note::default(), note(PitchName::A, Accidental::Natural, 4));
    assert_eq!(Pitch::default(), Pitch { class: PitchName::A, accidental: Accidental::Natural });
}
