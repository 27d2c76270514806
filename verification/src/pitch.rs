//! The pitch model: a diatonic letter class, an accidental and an octave,
//! together with the semitone encoding that transposition walks.
//!
//! The letter classes map to a fixed semitone table (A = 0, B = 2, C = 3,
//! D = 5, E = 7, F = 8, G = 10; the octave boundary lies at A). Decoding a
//! semitone count re-spells the pitch using only natural or sharp
//! accidentals, never flat.

use vstd::prelude::*;

verus! {

/// One of the seven diatonic letter classes.
#[derive(Clone, Copy, Debug, PartialEq, Eq, Structural)]
pub enum PitchName {
    A,
    B,
    C,
    D,
    E,
    F,
    G,
}

/// An accidental attached to a letter class.
#[derive(Clone, Copy, Debug, PartialEq, Eq, Structural)]
pub enum Accidental {
    Sharp,
    Flat,
    Natural,
}

/// A non-negative octave number.
#[derive(Clone, Copy, Debug, PartialEq, Eq, Structural)]
pub struct Octave(pub u32);

/// A pitch class: letter plus accidental, without an octave.
#[derive(Clone, Copy, Debug, PartialEq, Eq, Structural)]
pub struct Pitch {
    pub class: PitchName,
    pub accidental: Accidental,
}

/// A full pitch: pitch class plus octave.
#[derive(Clone, Copy, Debug, PartialEq, Eq, Structural)]
pub struct Note {
    pub pitch: Pitch,
    pub octave: Octave,
}

/// The semitone table of the letter classes, with the octave rooted at A.
pub open spec fn name_semitones(c: PitchName) -> int {
    match c {
        PitchName::A => 0,
        PitchName::B => 2,
        PitchName::C => 3,
        PitchName::D => 5,
        PitchName::E => 7,
        PitchName::F => 8,
        PitchName::G => 10,
    }
}

/// Semitones of a pitch class within its octave. A flat lowers the table
/// value by one, so A flat sits at -1: below the octave's origin.
pub open spec fn pitch_semitones(p: Pitch) -> int {
    name_semitones(p.class) + match p.accidental {
        Accidental::Flat => -1,
        Accidental::Natural => 0,
        Accidental::Sharp => 1,
    }
}

/// The absolute semitone index of a note.
pub open spec fn note_semitones(n: Note) -> int {
    n.octave.0 * 12 + pitch_semitones(n.pitch)
}

/// The canonical spelling of a semitone count within one octave: only
/// natural and sharp accidentals are ever produced.
pub open spec fn pitch_of_semitones(s: int) -> Pitch
    recommends
        0 <= s < 12,
{
    if s == 0 {
        Pitch { class: PitchName::A, accidental: Accidental::Natural }
    } else if s == 1 {
        Pitch { class: PitchName::A, accidental: Accidental::Sharp }
    } else if s == 2 {
        Pitch { class: PitchName::B, accidental: Accidental::Natural }
    } else if s == 3 {
        Pitch { class: PitchName::C, accidental: Accidental::Natural }
    } else if s == 4 {
        Pitch { class: PitchName::C, accidental: Accidental::Sharp }
    } else if s == 5 {
        Pitch { class: PitchName::D, accidental: Accidental::Natural }
    } else if s == 6 {
        Pitch { class: PitchName::D, accidental: Accidental::Sharp }
    } else if s == 7 {
        Pitch { class: PitchName::E, accidental: Accidental::Natural }
    } else if s == 8 {
        Pitch { class: PitchName::F, accidental: Accidental::Natural }
    } else if s == 9 {
        Pitch { class: PitchName::F, accidental: Accidental::Sharp }
    } else if s == 10 {
        Pitch { class: PitchName::G, accidental: Accidental::Natural }
    } else {
        Pitch { class: PitchName::G, accidental: Accidental::Sharp }
    }
}

/// The canonical note of an absolute semitone index.
pub open spec fn note_of_semitones(s: int) -> Note
    recommends
        0 <= s <= u32::MAX,
{
    Note { pitch: pitch_of_semitones(s % 12), octave: Octave((s / 12) as u32) }
}

/// A note whose semitone index the executable encoding can compute: its
/// pitch class does not fall below its octave's origin (A flat does), and
/// the index fits the counter width.
pub open spec fn encodable(n: Note) -> bool {
    &&& pitch_semitones(n.pitch) >= 0
    &&& note_semitones(n) <= u32::MAX
}

/// A note that decoding its own semitone index reproduces exactly: the
/// spelling the canonical table itself uses.
pub open spec fn is_canonical(n: Note) -> bool {
    &&& encodable(n)
    &&& n == note_of_semitones(note_semitones(n))
}

/// Decoding a semitone index yields a canonical note with that index.
pub proof fn lemma_note_of_semitones_inverse(s: int)
    requires
        0 <= s <= u32::MAX,
    ensures
        note_semitones(note_of_semitones(s)) == s,
        is_canonical(note_of_semitones(s)),
{
    let n = note_of_semitones(s);
    assert(s % 12 == s - (s / 12) * 12) by {
        vstd::arithmetic::div_mod::lemma_fundamental_div_mod(s, 12);
    }
    assert(0 <= s % 12 < 12) by {
        vstd::arithmetic::div_mod::lemma_mod_bound(s, 12);
    }
    assert(0 <= s / 12 <= u32::MAX) by {
        vstd::arithmetic::div_mod::lemma_div_nonincreasing(s, 12);
        vstd::arithmetic::div_mod::lemma_div_pos_is_pos(s, 12);
    }
    assert(pitch_semitones(n.pitch) == s % 12);
    assert(note_semitones(n) == (s / 12) * 12 + s % 12);
}

impl PitchName {
    /// The table value of this letter class.
    pub fn semitones(&self) -> (r: u32)
        ensures
            r == name_semitones(*self),
    {
        match self {
            PitchName::A => 0,
            PitchName::B => 2,
            PitchName::C => 3,
            PitchName::D => 5,
            PitchName::E => 7,
            PitchName::F => 8,
            PitchName::G => 10,
        }
    }
}

impl Default for Pitch {
    /// A natural.
    fn default() -> (r: Self)
        ensures
            r == (Pitch { class: PitchName::A, accidental: Accidental::Natural }),
    {
        Pitch { class: PitchName::A, accidental: Accidental::Natural }
    }
}

impl Pitch {
    /// Semitones of this pitch class within its octave.
    pub fn semitones(&self) -> (r: u32)
        requires
            pitch_semitones(*self) >= 0,
        ensures
            r == pitch_semitones(*self),
    {
        let base = self.class.semitones();
        match self.accidental {
            Accidental::Flat => base - 1,
            Accidental::Natural => base,
            Accidental::Sharp => base + 1,
        }
    }

    /// The canonical spelling of a semitone count within one octave.
    pub fn from_semitones(semitones: u32) -> (r: Pitch)
        requires
            semitones < 12,
        ensures
            r == pitch_of_semitones(semitones as int),
    {
        match semitones {
            0 => Pitch { class: PitchName::A, accidental: Accidental::Natural },
            1 => Pitch { class: PitchName::A, accidental: Accidental::Sharp },
            2 => Pitch { class: PitchName::B, accidental: Accidental::Natural },
            3 => Pitch { class: PitchName::C, accidental: Accidental::Natural },
            4 => Pitch { class: PitchName::C, accidental: Accidental::Sharp },
            5 => Pitch { class: PitchName::D, accidental: Accidental::Natural },
            6 => Pitch { class: PitchName::D, accidental: Accidental::Sharp },
            7 => Pitch { class: PitchName::E, accidental: Accidental::Natural },
            8 => Pitch { class: PitchName::F, accidental: Accidental::Natural },
            9 => Pitch { class: PitchName::F, accidental: Accidental::Sharp },
            10 => Pitch { class: PitchName::G, accidental: Accidental::Natural },
            _ => Pitch { class: PitchName::G, accidental: Accidental::Sharp },
        }
    }
}

impl Default for Note {
    /// A natural in octave four.
    fn default() -> (r: Self)
        ensures
            r == (Note {
                pitch: Pitch { class: PitchName::A, accidental: Accidental::Natural },
                octave: Octave(4),
            }),
    {
        Note {
            pitch: Pitch { class: PitchName::A, accidental: Accidental::Natural },
            octave: Octave(4),
        }
    }
}

impl Note {
    /// The absolute semitone index of this note.
    pub fn semitones(&self) -> (r: u32)
        requires
            encodable(*self),
        ensures
            r == note_semitones(*self),
    {
        self.octave.0 * 12 + self.pitch.semitones()
    }

    /// The canonical note of an absolute semitone index.
    pub fn from_semitones(semitones: u32) -> (r: Self)
        ensures
            r == note_of_semitones(semitones as int),
    {
        let octave = semitones / 12;
        proof {
            vstd::arithmetic::div_mod::lemma_fundamental_div_mod(semitones as int, 12);
            vstd::arithmetic::div_mod::lemma_mod_bound(semitones as int, 12);
        }
        let pitch = Pitch::from_semitones(semitones - octave * 12);
        Note { pitch, octave: Octave(octave) }
    }

    /// The canonical note one semitone above this one.
    pub fn successor(&self) -> (r: Self)
        requires
            encodable(*self),
            note_semitones(*self) + 1 <= u32::MAX,
        ensures
            r == note_of_semitones(note_semitones(*self) + 1),
    {
        Self::from_semitones(self.semitones() + 1)
    }

    /// The canonical note one semitone below this one.
    pub fn precurser(&self) -> (r: Self)
        requires
            encodable(*self),
            note_semitones(*self) >= 1,
        ensures
            r == note_of_semitones(note_semitones(*self) - 1),
    {
        Self::from_semitones(self.semitones() - 1)
    }

    /// Whether this note can be transposed by `semitones` without the
    /// semitone index leaving the counter's range.
    pub open spec fn transposable(self, semitones: int) -> bool {
        &&& encodable(self)
        &&& 0 <= note_semitones(self) + semitones <= u32::MAX
    }

    /// Whether transposition by `semitones` is defined on this note. A
    /// transposition by zero takes no step at all, so it is defined on
    /// every note.
    pub open spec fn can_transpose(self, semitones: int) -> bool {
        semitones == 0 || self.transposable(semitones)
    }

    /// What transposing this note by `semitones` yields: the note itself
    /// for a zero interval, the canonical spelling of the stepped semitone
    /// index otherwise.
    pub open spec fn transpose_result(self, semitones: int) -> Note {
        if semitones == 0 {
            self
        } else {
            note_of_semitones(note_semitones(self) + semitones)
        }
    }

    /// Transposes this note in place, one semitone at a time, re-spelling
    /// it canonically (natural or sharp, never flat).
    pub fn transpose(&mut self, semitones: i32)
        requires
            old(self).can_transpose(semitones as int),
        ensures
            *final(self) == old(self).transpose_result(semitones as int),
    {
        let ghost s0 = note_semitones(*old(self));
        if semitones == 0 {
            return ;
        }
        if semitones >= 0 {
            let mut i: i32 = 0;
            while i < semitones
                invariant
                    0 <= i <= semitones,
                    old(self).transposable(semitones as int),
                    s0 == note_semitones(*old(self)),
                    if i == 0 {
                        *self == *old(self)
                    } else {
                        *self == note_of_semitones(s0 + i)
                    },
                decreases semitones - i,
            {
                proof {
                    if i > 0 {
                        lemma_note_of_semitones_inverse(s0 + i);
                    }
                }
                *self = self.successor();
                i = i + 1;
            }
        } else {
            let steps: u32 = (-(semitones as i64)) as u32;
            let mut i: u32 = 0;
            while i < steps
                invariant
                    0 <= i <= steps,
                    steps == -(semitones as int),
                    old(self).transposable(semitones as int),
                    s0 == note_semitones(*old(self)),
                    if i == 0 {
                        *self == *old(self)
                    } else {
                        *self == note_of_semitones(s0 - i)
                    },
                decreases steps - i,
            {
                proof {
                    if i > 0 {
                        lemma_note_of_semitones_inverse(s0 - i);
                    }
                }
                *self = self.precurser();
                i = i + 1;
            }
        }
    }

    /// Transposes without mutating, refusing inputs whose semitone index
    /// the encoding cannot represent before or after the step.
    pub fn try_transpose(&self, semitones: i32) -> (r: Option<Note>)
        ensures
            match r {
                Some(n) => self.can_transpose(semitones as int) && n == self.transpose_result(
                    semitones as int,
                ),
                None => !self.can_transpose(semitones as int),
            },
    {
        if semitones == 0 {
            return Some(*self);
        }
        let base = self.pitch.class.semitones() as i64 + match self.pitch.accidental {
            Accidental::Flat => -1i64,
            Accidental::Natural => 0i64,
            Accidental::Sharp => 1i64,
        };
        if base < 0 {
            return None;
        }
        let s = self.octave.0 as i64 * 12 + base;
        if s > u32::MAX as i64 {
            return None;
        }
        let target = s + semitones as i64;
        if target < 0 || target > u32::MAX as i64 {
            return None;
        }
        Some(Note::from_semitones(target as u32))
    }
}

/// Transposing a canonical note up by any interval and then down by the
/// same interval restores the original note exactly: pitch class,
/// accidental and octave (round-trip identity).
pub proof fn lemma_transpose_round_trip(n: Note, semitones: int)
    requires
        is_canonical(n),
        n.can_transpose(semitones),
    ensures
        n.transpose_result(semitones).can_transpose(-semitones),
        n.transpose_result(semitones).transpose_result(-semitones) == n,
{
    if semitones != 0 {
        lemma_note_of_semitones_inverse(note_semitones(n) + semitones);
    }
}

} // verus!
