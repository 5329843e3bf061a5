//! A Minesweeper game engine: cells, a grid framed by a sentinel border,
//! mine placement that keeps the first click safe, flood reveal of zero
//! regions, and the state machine of a game.

pub mod cell;
pub mod game;
pub mod laws;
