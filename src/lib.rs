//! Maze generation and wall topology for a grid maze game.
//!
//! The library holds the grid, the per-cell wall model, the incremental
//! iterative-backtracking carver, the loop-adding (braid) pass, exit
//! selection, and the movement rules that a player token obeys on the
//! finished grid.

pub mod cell_set;
pub mod controls;
pub mod maze;
pub mod player;
mod random;
pub mod tile;
pub mod topology;
pub mod utils;
