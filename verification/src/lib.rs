//! A verified solver for standard 9x9 Sudoku puzzles.
//!
//! A grid is parsed from an 81-character line (digits `1`-`9` for fixed
//! cells, `.` for open cells), propagated to a fixed point by bitset
//! constraint pruning along rows, columns and 3x3 boxes, and completed by
//! depth-first search over binary branch points.

pub mod cell;
pub mod grid;
pub mod rows;
pub mod engine;
pub mod solve;
pub mod laws;
pub mod complete;
