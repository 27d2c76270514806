//! Core engine of a score editor: a timeline of timed musical events,
//! cursor-like selections over it, structural edit commands, and a
//! deterministic projection of the timeline into a measure/staff/voice
//! structure for an external renderer.

#![verifier::loop_isolation(false)]

use vstd::prelude::*;

pub mod codec;
pub mod commands;
pub mod event;
pub mod export;
pub mod laws;
pub mod mei;
pub mod pitch;
pub mod pulse;
pub mod score;
pub mod selection;
pub mod session;

pub use commands::AppendNote;
pub use commands::DeleteSelections;
pub use commands::Duration;
pub use commands::MoveSelections;
pub use commands::MoveSelectionsContents;
pub use commands::MoveSelectionsEnd;
pub use commands::Operation;
pub use commands::TransposeSelectionsContents;
pub use event::Event;
pub use session::Context;
pub use session::EditError;
pub use score::Score;
pub use selection::Selection;
pub use selection::Selections;
pub use pitch::Accidental;
pub use pitch::Note;
pub use pitch::Octave;
pub use pitch::Pitch;
pub use pitch::PitchName;
pub use pulse::Location;
pub use pulse::Pulse;

verus! {

} // verus!
