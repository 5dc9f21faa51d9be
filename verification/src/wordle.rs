//! The Wordle-style guessing assistant.
//!
//! Words are fixed-length sequences of letters, one letter per byte.
//! [`bitmask::Bitmask`] is a compact set of letter positions,
//! [`word_index::WordProcessor`] maps each letter of one word to the
//! set of positions it occupies, [`feedback`] computes the per-position
//! colors a guess earns against a solution, and [`suggest`] filters the
//! word bank by accumulated clues and ranks the next guess.

pub mod bitmask;
pub mod feedback;
pub mod suggest;
pub mod word_index;
