//! A Sudoku puzzle generator.
//!
//! The library produces a randomly solved 9x9 grid and then removes digits
//! to create a playable puzzle, at a caller-selected difficulty level.
//! Grids are 81-cell row-major arrays of digits 0-9, where 0 marks an
//! empty cell.

pub mod grid;
pub mod laws;
mod randomness;
pub mod sudoku;
