//! The ways in which an operation of this library can fail.

use vstd::prelude::*;

verus! {

/// Why an operation was refused or gave up.
#[derive(Debug, Clone, Copy, PartialEq, Eq, Structural)]
pub enum MazeError {
    /// A grid was asked for with no columns or no rows.
    InvalidDimensions,
    /// A position lies outside the grid.
    InvalidPosition,
    /// A passage was asked for between two cells that do not touch.
    NonAdjacentPositions,
    /// A walk was started although no cell belongs to the maze yet.
    EmptyVisitedSet,
    /// Generation was started on a grid that already holds passages.
    NonEmptyGridError,
    /// The explorer ran out of cells to try before it found the goal.
    UnreachableGoal,
    /// The source of random draws ran dry before the work was done.
    RandomnessExhausted,
}

} // verus!
