//! A twisty-cube puzzle model and a bounded heuristic solver.
//!
//! The cube is an N x N x N puzzle: six faces of N x N stickers, turned a
//! quarter at a time. This crate proves the geometry of turning (which rows
//! and columns of which neighbouring faces move together, and in what
//! orientation), the laws that turns obey, and an iterative-deepening
//! heuristic search that finds a turn sequence solving a scrambled cube.

pub mod cube;
pub mod laws;
pub mod notation;
pub mod search;
