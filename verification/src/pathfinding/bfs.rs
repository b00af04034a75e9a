//! Breadth-first search: the frontier is a queue, and the path found is a shortest one.

use crate::error::MazeError;
use crate::grid::{Grid, Position};
use crate::maze::MazeState;
use crate::pathfinding::model::Algorithm;
use crate::pathfinding::search::SearchOutcome;
use crate::pathfinding::{answers, search_with, PathFindingAlgorithm};
use vstd::prelude::*;

verus! {

/// The breadth-first strategy.
#[derive(Clone, Copy, Debug, Default)]
pub struct BfsSolver;

impl BfsSolver {
    /// Searches the maze of the session for a path from the computer player to the target.
    pub fn find_path(&mut self, maze_state: &MazeState) -> (out: Result<SearchOutcome, MazeError>)
        ensures
            answers(
                maze_state.grid_view(),
                Algorithm::Bfs,
                maze_state.computer_player(),
                maze_state.target(),
                out,
            ),
    {
        search_with(
            maze_state.grid(),
            Algorithm::Bfs,
            maze_state.computer_player(),
            maze_state.target(),
        )
    }
}

impl PathFindingAlgorithm for BfsSolver {
    open spec fn algorithm(&self) -> Algorithm {
        Algorithm::Bfs
    }

    fn find_path(&mut self, grid: &Grid, start: Position, end: Position) -> (out: Result<
        SearchOutcome,
        MazeError,
    >) {
        search_with(grid, Algorithm::Bfs, start, end)
    }
}

} // verus!
