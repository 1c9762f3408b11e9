//! Shortest solutions of the 3x3 sliding-tile puzzle: boards, their text form,
//! and a breadth-first search that finds a shortest sequence of moves.
pub mod board;
pub mod parity;
pub mod solver;
pub mod tile;

pub use board::{Board, ParseError};
pub use solver::solve;
pub use tile::Tile;
