//! A deduction-based sudoku solver.
//!
//! [`board`] models the 9-by-9 grid: cells, rows, columns and subgrids,
//! with validity and completeness checks. [`solver`] fills cells by two
//! deductions: a cell whose peers rule out all values but one, and a
//! value with only one home left inside a subgrid.

pub mod board;
pub mod solver;
