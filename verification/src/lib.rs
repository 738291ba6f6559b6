//! A verified generator and solver for generalized Sudoku puzzles of order
//! `base`: the grid side is `base * base` and the cell count its square.
//! Constraint propagation is combined with an explicit-stack backtracking
//! search; boards are read from and printed as fixed-width text lines.

mod board;
mod board_iterator;
mod generator;
mod laws;
mod solver;
mod text;

pub use board::Board;
pub use board::Field;
pub use board_iterator::BoardIter;
pub use board_iterator::IterType;
pub use generator::canonical_solution;
