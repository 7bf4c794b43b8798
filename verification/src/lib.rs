//! A single-player minesweeper engine: a generic grid, a bomb layout built on
//! it, and the session that tracks what the player has uncovered, with the
//! decisions of its two terminal front ends.

pub mod ascii_client;
pub mod minefield;
pub mod terminal;
pub mod tui_client;
