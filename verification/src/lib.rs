//! A verified 9x9 Sudoku engine: a flat 81-cell board, row/column/box
//! constraint checking, an exhaustive backtracking solver, and a seeded
//! puzzle generator.

pub mod engine;
pub mod grid;
pub mod laws;
mod rng;
pub mod search;

pub use engine::SudokuCore;
