//! The compiler: from the syntax tree of a score to its events, with the
//! time of each event in bars, whole notes and nanoseconds.
//!
//! Pitches stay symbolic here. A note carries its pitch chain and the base
//! pitch under which the chain is to be read; the frequency that they spell
//! is for the caller to compute.
//!
//! `walk` says what a score means: what the walk through the tree makes of
//! each construct. `compile` is the walker, held to that. `sustain` holds
//! the buckets by which a sustain finds the notes that end where it
//! starts.

pub mod atoms;
pub mod compile;
pub mod helpers;
pub mod sustain;
pub mod time;
pub mod types;
pub mod walk;
