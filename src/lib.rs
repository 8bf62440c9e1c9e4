//! A 9x9 number-placement puzzle: a grid of cells, its row, column and
//! block views, a text form, and a backtracking solver, all verified.

pub mod grid;
pub mod solver;
pub mod text;

pub use grid::{Field, Sudoku, Unit};
