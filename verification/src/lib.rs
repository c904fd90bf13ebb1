//! A generator and solver for mazes on an N-dimensional toroidal grid.
//!
//! The crate is built from three verified layers: an indexed binary heap
//! with decrease-key and increase-key support, pure wall/cell addressing
//! over a wraparound lattice, and the maze itself with its randomized
//! spanning-tree generator and A* path solver.

pub mod binary_heap;
pub mod grid;
pub mod maze;
mod rng;
