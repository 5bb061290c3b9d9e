//! The board simulation engine of a turn-paced hexagonal puzzle game:
//! marbles spawn on a hex grid, fall under a radial gravity, and are
//! cleared by player-drawn loops or automatic blob matches, with a
//! cascading scoring model.  Rendering, audio and input live outside; they
//! consume the board's read-only accessors and feed it discrete actions.

pub mod action;
pub mod blob;
pub mod board;
pub mod credits;
pub mod hex;
pub mod marble;
pub mod marble_map;
pub mod pattern;
pub mod settings;

mod rng;
