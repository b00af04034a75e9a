//! The ways in which building a maze or searching it can fail.

use crate::grid::Position;
use vstd::prelude::*;

verus! {

/// A failure, with what is needed to tell the user what went wrong.
#[derive(Debug, PartialEq, Eq)]
pub enum MazeError {
    /// The maze text holds a character that is neither `*` nor a space.
    InvalidGridSymbol(char),
    /// Row `row` of the maze is `found` cells wide where the first row is `expected` wide.
    InconsistentRowWidth { row: usize, expected: usize, found: usize },
    /// No free open cell turned up within the allowed number of random draws.
    PlacementExhausted,
    /// No search strategy goes by this name.
    UnknownAlgorithm(String),
    /// A search was asked to start or end on a wall or outside the grid.
    InvalidEndpoint(Position),
    /// A path was asked for to a cell that the search never reached.
    UnreachablePath(Position),
}

} // verus!
