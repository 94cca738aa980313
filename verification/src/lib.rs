//! A verified Sudoku solver: a bitmask constraint tracker plus a
//! backtracking search over the empty cells of a 9x9 grid.

pub mod grid;
pub mod laws;
pub mod solver;

pub use grid::Matrix;
pub use solver::solve;
