//! A deduction engine for 9x9 number-place puzzles.
//!
//! The board holds the grid and, for every cell, the digits not yet excluded
//! for it. Candidate computation, locked-candidate elimination, the fill scan
//! for naked and hidden singles, propagation to a fixed point, a one-guess
//! speculative search and the validator of a completed grid are all stated
//! over a mathematical model of the grid and proved against it.

pub mod board;
pub mod candidates;
pub mod digits;
pub mod elimination;
pub mod fill;
pub mod grid;
pub mod propagate;
pub mod search;
pub mod validate;

pub use board::{ColGroup, RowGroup, SudokuBoard};
pub use search::SolveOutcome;
