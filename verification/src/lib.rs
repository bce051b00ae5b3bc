//! A two-player pursuit game on a staggered hexagonal grid: the dot tries
//! to walk off the edge of the board while the placer tries to wall it in.
//!
//! The crate provides the board geometry, a compact copyable board state,
//! breadth-first reachability search, branch generation for both roles, and
//! a family of strategies culminating in a depth-bounded adversarial search
//! over a totally ordered outcome type.

pub mod board;
pub mod geometry;
pub mod outcome;
pub mod reach;
pub mod render;
pub mod rng;
pub mod strategy;
pub mod utility;

pub use board::State;
pub use geometry::Pos;
