//! A 9x9 sudoku solver: bitmask candidate sets, constraint propagation and
//! backtracking search, with contracts checked by Verus.

pub mod board;
pub mod rules;
pub mod solution;
pub mod solver;
pub mod util;
