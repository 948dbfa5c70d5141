//! The grid model: positions, cells and the passage graph.

pub mod cell;
pub mod graph;
pub mod grid;
pub mod tree;
