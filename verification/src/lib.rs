//! A small sliding-tile puzzle library: a fixed-size grid of power-of-two
//! tiles, directional shift-and-merge moves, random tile spawning, and a
//! bounded undo history.

pub mod board;
pub mod cell;
pub mod coordinate;
pub mod line;
pub mod movement;
mod rng;

pub use cell::Cell;
pub use cell::MergeResult;
pub use coordinate::Coordinate;
pub use movement::Direction;
pub use movement::Move;
pub use movement::parse_input;
