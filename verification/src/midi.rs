//! The MIDI encoder: from note events to the tracks of a Standard MIDI
//! File of format 1, each note track on a channel of its own with one
//! pitch bend in force at a time.

pub mod export;
pub mod layout;
pub mod render;
pub mod smf;
pub mod tempo;
pub mod tracks;
pub mod writer;
