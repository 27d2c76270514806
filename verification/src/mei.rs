//! The hierarchical structure the export projection emits: measures,
//! staves, voices and notated events, as the external engraving renderer
//! consumes them.

use vstd::prelude::*;

verus! {

/// The root of an exported document.
#[derive(Debug, Default, PartialEq, Eq)]
pub struct Mei {
    pub meiversion: Option<String>,
    pub resp: Option<String>,
    pub mei_head: Option<MeiHead>,
    pub music: Option<Music>,
}

/// The document header.
#[derive(Debug, Default, PartialEq, Eq)]
pub struct MeiHead {}

/// The musical content of a document.
#[derive(Debug, Default, PartialEq, Eq)]
pub struct Music {
    pub body: Option<Body>,
}

/// The body of the musical content.
#[derive(Debug, Default, PartialEq, Eq)]
pub struct Body {
    pub mdivs: Vec<MDiv>,
}

/// One musical division.
#[derive(Debug, Default, PartialEq, Eq)]
pub struct MDiv {
    pub score: Option<Score>,
}

/// A notated score: its definition and its sections.
#[derive(Debug, Default, PartialEq, Eq)]
pub struct Score {
    pub score_def: Option<ScoreDef>,
    pub sections: Vec<Section>,
}

/// The meter, key and staff configuration of a score.
#[derive(Debug, Default, PartialEq, Eq)]
pub struct ScoreDef {
    pub meter_count: Option<u32>,
    pub meter_unit: Option<u32>,
    pub key_sig: Option<String>,
    pub key_mode: Option<String>,
    pub staff_grp: Option<StaffGrp>,
}

/// A group of staff definitions.
#[derive(Debug, Default, PartialEq, Eq)]
pub struct StaffGrp {
    pub staff_def: Option<StaffDef>,
}

/// One staff definition: clef and line count.
#[derive(Debug, Default, PartialEq, Eq)]
pub struct StaffDef {
    pub n: Option<u32>,
    pub clef_line: Option<u32>,
    pub clef_shape: Option<String>,
    pub clef_dis: Option<u32>,
    pub clef_dis_place: Option<String>,
    pub lines: Option<u32>,
}

/// A run of measures.
#[derive(Debug, Default, PartialEq, Eq)]
pub struct Section {
    pub measures: Vec<Measure>,
}

/// One measure, holding its staves.
#[derive(Debug, Default, PartialEq, Eq)]
pub struct Measure {
    pub n: Option<u32>,
    pub staves: Vec<Staff>,
}

/// A beamed group of notated events.
#[derive(Debug, Default, PartialEq, Eq)]
pub struct Beam {
    pub events: Vec<EventLike>,
}

/// One staff of a measure, holding its voices.
#[derive(Debug, Default, PartialEq, Eq)]
pub struct Staff {
    pub layers: Vec<Layer>,
}

/// One voice of a measure: a numbered run of notated events.
#[derive(Debug, Default, PartialEq, Eq)]
pub struct Layer {
    pub n: Option<u32>,
    pub events: Vec<EventLike>,
}

/// Several notes sounding together.
#[derive(Debug, Default, PartialEq, Eq)]
pub struct Chord {
    pub dur: Option<u32>,
    pub notes: Vec<Note>,
}

/// Any notated event a voice can hold.
#[derive(Debug, PartialEq, Eq)]
pub enum EventLike {
    Note(Note),
    Rest(Rest),
    Chord(Chord),
    Beam(Beam),
}

/// One notated note: identifier, pitch letter, accidental (absent when
/// natural), octave and notated duration.
#[derive(Debug, Default, PartialEq, Eq)]
pub struct Note {
    pub xml_id: Option<String>,
    pub pname: Option<String>,
    pub accid: Option<String>,
    pub pclass: Option<u32>,
    pub oct: u32,
    pub dur: Option<u32>,
}

/// One notated rest, carrying only its notated duration.
#[derive(Debug, Default, PartialEq, Eq)]
pub struct Rest {
    pub dur: Option<u32>,
}

} // verus!
