//! A verified 9x9 sudoku engine: board representation, legality checking,
//! exhaustive backtracking solving, randomized full-board generation, and
//! puzzle construction by hole-digging with a uniqueness guarantee.

pub mod generator;
pub mod grid;
pub mod laws;
pub mod model;
pub mod solver;
pub mod tile;
