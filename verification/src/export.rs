//! The export projection: a deterministic walk of the timeline in
//! ascending start order that emits rest fillers for gaps, converts pulse
//! durations to notated values, and closes a measure whenever the running
//! position reaches a multiple of four beats. Under the fixed 4/4 meter,
//! with four pulses to the quarter note, that is every sixteen pulses.

use vstd::prelude::*;
use vstd::string::StringExecFns;

use crate::event::EventV;
use crate::mei;
use crate::pitch::Accidental;
use crate::pitch::Pitch;
use crate::pitch::PitchName;
use crate::score::Score;
use crate::session::EditError;

verus! {

/// The decimal digit character of `d`.
pub open spec fn digit_char(d: int) -> char {
    if d == 0 {
        '0'
    } else if d == 1 {
        '1'
    } else if d == 2 {
        '2'
    } else if d == 3 {
        '3'
    } else if d == 4 {
        '4'
    } else if d == 5 {
        '5'
    } else if d == 6 {
        '6'
    } else if d == 7 {
        '7'
    } else if d == 8 {
        '8'
    } else {
        '9'
    }
}

/// The decimal digits of a non-negative number, most significant first.
pub open spec fn dec_digits(n: int) -> Seq<char>
    recommends
        n >= 0,
    decreases n,
{
    if n < 10 {
        seq![digit_char(n)]
    } else {
        dec_digits(n / 10).push(digit_char(n % 10))
    }
}

/// The identifier string an exported note carries.
pub open spec fn note_id_seq(id: int) -> Seq<char> {
    seq!['n', 'o', 't', 'e', '_'] + dec_digits(id)
}

/// The lower-case letter of a pitch class.
pub open spec fn letter_char(c: PitchName) -> char {
    match c {
        PitchName::A => 'a',
        PitchName::B => 'b',
        PitchName::C => 'c',
        PitchName::D => 'd',
        PitchName::E => 'e',
        PitchName::F => 'f',
        PitchName::G => 'g',
    }
}

/// The letter of an accidental as the renderer spells it.
pub open spec fn accid_char(a: Accidental) -> char {
    match a {
        Accidental::Sharp => 's',
        Accidental::Flat => 'f',
        Accidental::Natural => 'n',
    }
}

/// The notated duration of a pulse count: sixteen pulses are a whole note
/// (notated 1), four a quarter (notated 4), one a sixteenth (notated 16).
/// Any other count has no defined notated value.
pub open spec fn notated_value(p: int) -> Option<int> {
    if p == 1 {
        Some(16int)
    } else if p == 2 {
        Some(8int)
    } else if p == 4 {
        Some(4int)
    } else if p == 8 {
        Some(2int)
    } else if p == 16 {
        Some(1int)
    } else {
        None
    }
}

/// One notated event of the projection.
pub ghost enum ProjEv {
    Note { id: int, pitch: Pitch, oct: int, dur: int },
    Rest { dur: int },
}

/// The walk's running state: the position reached so far, the voice being
/// filled, and the measures already closed.
pub ghost struct ProjState {
    pub beat: int,
    pub layer: Seq<ProjEv>,
    pub measures: Seq<Seq<ProjEv>>,
}

/// The walk from event `i` on: a rest fills any gap before the event, the
/// event itself is notated, and the voice closes into a measure whenever
/// the running position is a multiple of sixteen pulses — four beats, one
/// full 4/4 measure. An unrepresentable gap or duration stops the walk
/// with no result.
pub open spec fn project_from(events: Seq<EventV>, i: int, st: ProjState) -> Option<ProjState>
    decreases events.len() - i,
{
    if i < 0 || i >= events.len() {
        Some(st)
    } else {
        let e = events[i];
        let gap = e.start - st.beat;
        if e.start > st.beat && notated_value(gap) is None {
            None
        } else if notated_value(e.dur) is None {
            None
        } else {
            let layer1 = if e.start > st.beat {
                st.layer.push(ProjEv::Rest { dur: notated_value(gap)->0 })
            } else {
                st.layer
            };
            let layer2 = layer1.push(
                ProjEv::Note {
                    id: e.id,
                    pitch: e.note.pitch,
                    oct: e.note.octave.0 as int,
                    dur: notated_value(e.dur)->0,
                },
            );
            let nb = e.start + e.dur;
            let st2 = if nb % 16 == 0 {
                ProjState { beat: nb, layer: Seq::empty(), measures: st.measures.push(layer2) }
            } else {
                ProjState { beat: nb, layer: layer2, measures: st.measures }
            };
            project_from(events, i + 1, st2)
        }
    }
}

/// The measures the timeline projects to: the walk from its start, with a
/// trailing partial measure still emitted. No result when some gap or
/// duration has no notated value.
pub open spec fn project(events: Seq<EventV>) -> Option<Seq<Seq<ProjEv>>> {
    match project_from(
        events,
        0,
        ProjState { beat: 0, layer: Seq::empty(), measures: Seq::empty() },
    ) {
        None => None,
        Some(st) => Some(
            if st.layer.len() > 0 {
                st.measures.push(st.layer)
            } else {
                st.measures
            },
        ),
    }
}

/// Whether an exported note carries exactly a projected note's fields:
/// its identifier string, its pitch letter, its accidental (absent when
/// natural), its octave and its notated duration.
pub open spec fn note_matches(n: mei::Note, id: int, pitch: Pitch, oct: int, dur: int) -> bool {
    &&& n.xml_id matches Some(x) && x@ == note_id_seq(id)
    &&& n.pname matches Some(p) && p@ == seq![letter_char(pitch.class)]
    &&& (pitch.accidental is Natural ==> n.accid is None)
    &&& (!(pitch.accidental is Natural) ==> (n.accid matches Some(a) && a@ == seq![
        accid_char(pitch.accidental),
    ]))
    &&& n.pclass is None
    &&& n.oct as int == oct
    &&& n.dur matches Some(d) && d as int == dur
}

/// Whether an exported event carries exactly a projected event.
pub open spec fn eventlike_matches(el: mei::EventLike, o: ProjEv) -> bool {
    match o {
        ProjEv::Note { id, pitch, oct, dur } => el matches mei::EventLike::Note(n)
            && note_matches(n, id, pitch, oct, dur),
        ProjEv::Rest { dur } => el matches mei::EventLike::Rest(r) && r.dur matches Some(d)
            && d as int == dur,
    }
}

/// Whether an exported voice is the given projected voice, under its
/// number.
pub open spec fn layer_matches(l: mei::Layer, num: int, events: Seq<ProjEv>) -> bool {
    &&& l.n matches Some(nv) && nv as int == num
    &&& l.events@.len() == events.len()
    &&& forall|i: int| 0 <= i < events.len() ==> eventlike_matches(#[trigger] l.events@[i], events[i])
}

/// Whether an exported measure holds exactly one staff with exactly the
/// given voice.
pub open spec fn measure_matches(m: mei::Measure, num: int, events: Seq<ProjEv>) -> bool {
    &&& m.n == Some(1u32)
    &&& m.staves@.len() == 1
    &&& m.staves@[0].layers@.len() == 1
    &&& layer_matches(m.staves@[0].layers@[0], num, events)
}

/// The fixed score definition of every export: common time, no key
/// signature, major mode, one five-line staff under a G clef displaced
/// below its usual line.
pub open spec fn score_def_matches(sd: mei::ScoreDef) -> bool {
    &&& sd.meter_count == Some(4u32)
    &&& sd.meter_unit == Some(4u32)
    &&& sd.key_sig matches Some(ks) && ks@ == seq!['0']
    &&& sd.key_mode matches Some(km) && km@ == seq!['m', 'a', 'j', 'o', 'r']
    &&& sd.staff_grp matches Some(sg) && sg.staff_def matches Some(sdef) && {
        &&& sdef.n == Some(1u32)
        &&& sdef.clef_line == Some(2u32)
        &&& sdef.clef_shape matches Some(cs) && cs@ == seq!['G']
        &&& sdef.clef_dis is None
        &&& sdef.clef_dis_place matches Some(cd) && cd@ == seq!['b', 'e', 'l', 'o', 'w']
        &&& sdef.lines == Some(5u32)
    }
}

/// Whether an exported document holds exactly the given measures: one
/// body, one division, one section, the fixed score definition, and the
/// measures in order, each voice numbered by its measure's position.
pub open spec fn mei_matches(m: mei::Mei, measures: Seq<Seq<ProjEv>>) -> bool {
    &&& m.meiversion is None
    &&& m.resp is None
    &&& m.mei_head == Some(mei::MeiHead {  })
    &&& m.music matches Some(mu) && mu.body matches Some(b) && {
        &&& b.mdivs@.len() == 1
        &&& b.mdivs@[0].score matches Some(sc) && {
            &&& sc.score_def matches Some(sd) && score_def_matches(sd)
            &&& sc.sections@.len() == 1
            &&& sc.sections@[0].measures@.len() == measures.len()
            &&& forall|i: int|
                0 <= i < measures.len() ==> measure_matches(
                    #[trigger] sc.sections@[0].measures@[i],
                    i + 1,
                    measures[i],
                )
        }
    }
}

/// Appends the decimal digits of `n` to `s`.
fn push_dec(s: &mut String, n: u32)
    ensures
        final(s)@ == old(s)@ + dec_digits(n as int),
    decreases n,
{
    if n >= 10 {
        push_dec(s, n / 10);
    }
    let d = n % 10;
    let c: &str = match d {
        0 => "0",
        1 => "1",
        2 => "2",
        3 => "3",
        4 => "4",
        5 => "5",
        6 => "6",
        7 => "7",
        8 => "8",
        _ => "9",
    };
    proof {
        reveal_strlit("0");
        reveal_strlit("1");
        reveal_strlit("2");
        reveal_strlit("3");
        reveal_strlit("4");
        reveal_strlit("5");
        reveal_strlit("6");
        reveal_strlit("7");
        reveal_strlit("8");
        reveal_strlit("9");
        assert(c@ == seq![digit_char(d as int)]);
    }
    s.append(c);
    proof {
        if n < 10 {
            assert(dec_digits(n as int) =~= seq![digit_char(n as int)]);
        } else {
            assert(dec_digits(n as int) =~= dec_digits(n as int / 10).push(
                digit_char(n as int % 10),
            ));
            assert(old(s)@ + dec_digits(n as int / 10) + seq![digit_char(d as int)] =~= old(s)@
                + dec_digits(n as int));
        }
    }
}

/// The identifier string of an exported note.
fn note_id_string(id: u32) -> (r: String)
    ensures
        r@ == note_id_seq(id as int),
{
    let mut s = String::from_str("note_");
    proof {
        reveal_strlit("note_");
        assert(s@ =~= seq!['n', 'o', 't', 'e', '_']);
    }
    push_dec(&mut s, id);
    proof {
        assert(s@ =~= note_id_seq(id as int));
    }
    s
}

/// The lower-case letter of a pitch class, as a fresh string.
fn letter_string(c: PitchName) -> (r: String)
    ensures
        r@ == seq![letter_char(c)],
{
    let lit: &str = match c {
        PitchName::A => "a",
        PitchName::B => "b",
        PitchName::C => "c",
        PitchName::D => "d",
        PitchName::E => "e",
        PitchName::F => "f",
        PitchName::G => "g",
    };
    proof {
        reveal_strlit("a");
        reveal_strlit("b");
        reveal_strlit("c");
        reveal_strlit("d");
        reveal_strlit("e");
        reveal_strlit("f");
        reveal_strlit("g");
        assert(lit@ == seq![letter_char(c)]);
    }
    String::from_str(lit)
}

/// The letter of an accidental, as a fresh string.
fn accid_string(a: Accidental) -> (r: String)
    ensures
        r@ == seq![accid_char(a)],
{
    let lit: &str = match a {
        Accidental::Sharp => "s",
        Accidental::Flat => "f",
        Accidental::Natural => "n",
    };
    proof {
        reveal_strlit("s");
        reveal_strlit("f");
        reveal_strlit("n");
        assert(lit@ == seq![accid_char(a)]);
    }
    String::from_str(lit)
}

/// The notated duration of a pulse count, when it has one.
fn notated_of(p: i64) -> (r: Option<u32>)
    ensures
        match r {
            Some(v) => notated_value(p as int) == Some(v as int),
            None => notated_value(p as int) is None,
        },
{
    if p == 1 {
        Some(16)
    } else if p == 2 {
        Some(8)
    } else if p == 4 {
        Some(4)
    } else if p == 8 {
        Some(2)
    } else if p == 16 {
        Some(1)
    } else {
        None
    }
}

/// A number and its negation are divisible by sixteen together.
proof fn lemma_neg_divisible(x: int)
    ensures
        ((-x) % 16 == 0) <==> (x % 16 == 0),
{
    if x % 16 == 0 {
        vstd::arithmetic::div_mod::lemma_fundamental_div_mod(x, 16);
        let k = x / 16;
        assert(-x == (-k) * 16);
        vstd::arithmetic::div_mod::lemma_mod_multiples_basic(-k, 16);
    }
    if (-x) % 16 == 0 {
        vstd::arithmetic::div_mod::lemma_fundamental_div_mod(-x, 16);
        let k = (-x) / 16;
        assert(x == (-k) * 16);
        vstd::arithmetic::div_mod::lemma_mod_multiples_basic(-k, 16);
    }
}

/// Whether a position sits on a measure boundary: a multiple of sixteen
/// pulses, one full 4/4 measure.
fn on_measure_boundary(v: i64) -> (r: bool)
    requires
        v > i64::MIN,
    ensures
        r == ((v as int) % 16 == 0),
{
    let a: u64 = if v >= 0 {
        v as u64
    } else {
        (-v) as u64
    };
    proof {
        if v < 0 {
            lemma_neg_divisible(v as int);
        }
    }
    a % 16 == 0
}

impl Score {
    /// Projects the timeline into the exported measure/staff/voice
    /// structure: a deterministic walk in ascending start order that emits
    /// a rest for every gap, notates every event, and closes a measure
    /// whenever the running position reaches a multiple of four beats —
    /// sixteen pulses, one full 4/4 measure. Fails, touching nothing, when
    /// some gap or duration has no notated value.
    pub fn to_mei(&self) -> (r: Result<mei::Mei, EditError>)
        requires
            self.events@.len() < u32::MAX,
        ensures
            match r {
                Ok(m) => project(self@) matches Some(ms) && mei_matches(m, ms),
                Err(e) => e == EditError::UnrepresentableDuration && project(self@) is None,
            },
    {
        let ghost init = ProjState { beat: 0, layer: Seq::empty(), measures: Seq::empty() };
        let n = self.events.len();
        let mut beat: i64 = 0;
        let mut layer_n: u32 = 1;
        let mut layer_events: Vec<mei::EventLike> = Vec::new();
        let mut measures_v: Vec<mei::Measure> = Vec::new();
        let ghost mut gl: Seq<ProjEv> = Seq::empty();
        let ghost mut gm: Seq<Seq<ProjEv>> = Seq::empty();
        let mut i: usize = 0;
        while i < n
            invariant
                0 <= i <= n,
                n == self.events@.len(),
                project_from(self@, 0, init) == project_from(
                    self@,
                    i as int,
                    ProjState { beat: beat as int, layer: gl, measures: gm },
                ),
                layer_events@.len() == gl.len(),
                forall|k: int|
                    0 <= k < gl.len() ==> eventlike_matches(#[trigger] layer_events@[k], gl[k]),
                measures_v@.len() == gm.len(),
                forall|k: int|
                    0 <= k < gm.len() ==> measure_matches(#[trigger] measures_v@[k], k + 1, gm[k]),
                layer_n as int == gm.len() + 1,
                gm.len() <= i,
                i32::MIN <= beat <= i32::MAX as i64 + 16,
            decreases n - i,
        {
            let e = self.events[i];
            proof {
                assert(self@[i as int] == e@);
            }
            let ghost st = ProjState { beat: beat as int, layer: gl, measures: gm };
            let est: i64 = e.start.0 as i64;
            if est > beat {
                let g = est - beat;
                match notated_of(g) {
                    None => {
                        proof {
                            assert(project_from(self@, i as int, st) is None);
                        }
                        return Err(EditError::UnrepresentableDuration);
                    },
                    Some(dv) => {
                        layer_events.push(mei::EventLike::Rest(mei::Rest { dur: Some(dv) }));
                        proof {
                            gl = gl.push(ProjEv::Rest { dur: dv as int });
                        }
                    },
                }
            }
            let dv = match notated_of(e.duration.0 as i64) {
                None => {
                    proof {
                        assert(project_from(self@, i as int, st) is None);
                    }
                    return Err(EditError::UnrepresentableDuration);
                },
                Some(v) => v,
            };
            let accid: Option<String> = match e.note.pitch.accidental {
                Accidental::Natural => None,
                Accidental::Sharp => Some(accid_string(e.note.pitch.accidental)),
                Accidental::Flat => Some(accid_string(e.note.pitch.accidental)),
            };
            let note_el = mei::Note {
                xml_id: Some(note_id_string(e.event_id)),
                pname: Some(letter_string(e.note.pitch.class)),
                accid,
                pclass: None,
                oct: e.note.octave.0,
                dur: Some(dv),
            };
            let ghost pn = ProjEv::Note {
                id: e@.id,
                pitch: e.note.pitch,
                oct: e.note.octave.0 as int,
                dur: dv as int,
            };
            proof {
                assert(note_matches(note_el, e@.id, e.note.pitch, e.note.octave.0 as int, dv as int));
            }
            layer_events.push(mei::EventLike::Note(note_el));
            proof {
                gl = gl.push(pn);
            }
            beat = est + e.duration.0 as i64;
            let ghost st2 = if (beat as int) % 16 == 0 {
                ProjState { beat: beat as int, layer: Seq::empty(), measures: gm.push(gl) }
            } else {
                ProjState { beat: beat as int, layer: gl, measures: gm }
            };
            proof {
                assert(project_from(self@, i as int, st) == project_from(self@, i as int + 1, st2));
            }
            if on_measure_boundary(beat) {
                let mut layers: Vec<mei::Layer> = Vec::new();
                layers.push(mei::Layer { n: Some(layer_n), events: layer_events });
                let mut staves: Vec<mei::Staff> = Vec::new();
                staves.push(mei::Staff { layers });
                measures_v.push(mei::Measure { n: Some(1), staves });
                layer_events = Vec::new();
                layer_n = layer_n + 1;
                proof {
                    gm = gm.push(gl);
                    gl = Seq::empty();
                }
            }
            i = i + 1;
        }
        let ghost stf = ProjState { beat: beat as int, layer: gl, measures: gm };
        proof {
            assert(project_from(self@, n as int, stf) == Some(stf));
        }
        if layer_events.len() > 0 {
            let mut layers: Vec<mei::Layer> = Vec::new();
            layers.push(mei::Layer { n: Some(layer_n), events: layer_events });
            let mut staves: Vec<mei::Staff> = Vec::new();
            staves.push(mei::Staff { layers });
            measures_v.push(mei::Measure { n: Some(1), staves });
            proof {
                gm = gm.push(gl);
            }
        }
        proof {
            assert(project(self@) == Some(gm));
        }
        let key_sig = String::from_str("0");
        let key_mode = String::from_str("major");
        let clef_shape = String::from_str("G");
        let clef_dis_place = String::from_str("below");
        proof {
            reveal_strlit("0");
            reveal_strlit("major");
            reveal_strlit("G");
            reveal_strlit("below");
            assert(key_sig@ =~= seq!['0']);
            assert(key_mode@ =~= seq!['m', 'a', 'j', 'o', 'r']);
            assert(clef_shape@ =~= seq!['G']);
            assert(clef_dis_place@ =~= seq!['b', 'e', 'l', 'o', 'w']);
        }
        let staff_def = mei::StaffDef {
            n: Some(1),
            clef_line: Some(2),
            clef_shape: Some(clef_shape),
            clef_dis: None,
            clef_dis_place: Some(clef_dis_place),
            lines: Some(5),
        };
        let score_def = mei::ScoreDef {
            meter_count: Some(4),
            meter_unit: Some(4),
            key_sig: Some(key_sig),
            key_mode: Some(key_mode),
            staff_grp: Some(mei::StaffGrp { staff_def: Some(staff_def) }),
        };
        let mut sections: Vec<mei::Section> = Vec::new();
        sections.push(mei::Section { measures: measures_v });
        let mut mdivs: Vec<mei::MDiv> = Vec::new();
        mdivs.push(
            mei::MDiv { score: Some(mei::Score { score_def: Some(score_def), sections }) },
        );
        let m = mei::Mei {
            meiversion: None,
            resp: None,
            mei_head: Some(mei::MeiHead {  }),
            music: Some(mei::Music { body: Some(mei::Body { mdivs }) }),
        };
        proof {
            assert(mei_matches(m, gm));
        }
        Ok(m)
    }
}

} // verus!
