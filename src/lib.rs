//! Move selection for a player of a grid game played on a torus.
//!
//! The board records which player's trail occupies each cell, a registry
//! records the current head of each live player, and the selector picks the
//! direction that leaves the most room, measured by a flood fill.

pub mod direction;
pub mod game;
pub mod grid;
