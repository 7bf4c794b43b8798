//! The game logic, leaf first: the grid container, the bomb layout, and the
//! player's session.

pub mod client;
pub mod field;
pub mod grid;
pub mod sampling;
pub mod text;
