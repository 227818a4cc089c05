//! An N-dimensional generalization of Connect Four.
//!
//! Two players drop disks into a hyper-rectangular board along one free axis
//! at a time; a player wins by placing four disks of their color consecutively
//! along any straight line (axis-aligned or diagonal) through the grid.
//!
//! The board is an owned flat buffer of `Option<Color>` addressed by
//! row-major strides, together with its dimension-size vector.  The win
//! detector precomputes the canonical half of the direction set
//! `{-1,0,1}^D \ {0}` and, for a just-placed disk, scans both ways along each
//! retained direction.

pub mod dirs;
pub mod err;
pub mod game;
pub mod model;

pub use err::GameError;
pub use game::Color;
pub use game::GameState;
