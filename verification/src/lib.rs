//! A solver for 9x9 Sudoku puzzles: candidate bitsets, validators, a mask engine for
//! legality tests, a cell selector and a backtracking search whose top level fans out
//! over the candidate digits of one cell.

pub mod api;
pub mod benchmark;
pub mod board;
pub mod candidates;
pub mod error;
pub mod generator;
pub mod grid;
pub mod laws;
pub mod render;
pub mod rules;
pub mod search;
pub mod selection;
pub mod simd;
pub mod solver;

pub use crate::board::Board;
pub use crate::candidates::CandidateSet;
pub use crate::error::SudokuError;
pub use crate::grid::{ApiResponse, BoardWrapper, Grid};
