//! Maze generation by loop-erased random walks and a breadth-first explorer
//! that moves through the finished maze one passage at a time.

pub mod error;
pub mod maze_generator;
pub mod model;
pub mod mouse;
pub mod random;
