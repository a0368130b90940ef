//! A two-player drop-four game: a board of columns that markers fall into,
//! detection of four in a row through the last placed marker, detection of a
//! full board, and the turn sequence of one game.

pub mod board;
pub mod game;
pub mod marker;
