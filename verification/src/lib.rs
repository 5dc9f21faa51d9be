//! Solvers for three letter-and-grid puzzles.
//!
//! The heart of the crate is the Wordle-style guessing assistant under
//! [`wordle`]: it computes per-letter feedback for a guess against a
//! candidate solution, narrows a word bank to the words consistent with
//! all feedback seen so far, and recommends the next guess that best
//! splits the remaining candidates. The [`sudoku`] module holds a
//! deduction-based grid solver, and [`spellingbee`] a letter-set filter.

pub mod spellingbee;
pub mod sudoku;
pub mod wordle;
