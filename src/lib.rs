//! Maze generation by loop-erased random walks and a race of depth-first
//! solvers over a shared grid of bit-packed squares.

pub mod cell;
pub mod cursor;
pub mod hunt_kill;
pub mod maze;
pub mod modify;
pub mod tape;
pub mod tree;
pub mod random;
pub mod recursive_backtracker;
pub mod solve;
pub mod wilson;
