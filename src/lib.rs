//! Modelling, checking, solving and generating 9x9 Sudoku puzzles.

pub mod board;
pub mod candidate;
pub mod solver;
pub mod text;
pub mod generator;
pub mod game;
