//! The sliding-tile "15 puzzle": an N×N grid of numbered tiles with one blank
//! cell, moves that slide a neighbouring tile into the blank, shuffling by a
//! walk of legal moves, and the test for the solved order.
//!
//! Every executable function is specified over [`Grid`], the mathematical
//! model of a board, and proved against it.

pub mod board;
pub mod console;
pub mod controls;
pub mod grid;
pub mod laws;
pub mod shuffle;

pub use board::{Board, ConstructionError};
pub use grid::{Grid, Move};
pub use shuffle::{BoardShuffle, DummyShuffle, RandomShuffle};
