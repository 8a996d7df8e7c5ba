//! A match-3 board engine: the grid, match detection, gravity and refill,
//! swap validation and the loop that settles the board.
pub mod tile;
pub mod components;
pub mod board;
pub mod addressing;
pub mod matching;
pub mod gravity;
pub mod settle;
pub mod swap;
pub mod laws;
