//! Exhaustive tiling search on a hexagonal board of triangular cells.
//!
//! The board has 54 cells addressed by (row, position, half-cell) triples.
//! A fixed catalog of pieces is placed on it by backtracking, one piece per
//! group, in every combination of variant and rotation.

pub mod board;
pub mod coord;
pub mod odometer;
pub mod permutations;
pub mod piece;
pub mod pieces;
pub mod rgen;
pub mod solutions;
pub mod text;
