//! A verified Minesweeper game engine.
//!
//! The engine owns a rectangular grid of cells, scatters hidden mines at
//! construction, and implements the reveal, cascade, chord and flag rules
//! that drive the player-visible board state.

pub mod minesweeper;
pub mod random;
