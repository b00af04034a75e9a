//! Depth-first search: the frontier is a stack, and the path is the one it stumbles on.

use crate::error::MazeError;
use crate::grid::{Grid, Position};
use crate::maze::MazeState;
use crate::pathfinding::model::Algorithm;
use crate::pathfinding::search::SearchOutcome;
use crate::pathfinding::{answers, search_with, PathFindingAlgorithm};
use vstd::prelude::*;

verus! {

/// The depth-first strategy.
#[derive(Clone, Copy, Debug, Default)]
pub struct DfsSolver;

impl DfsSolver {
    /// Searches the maze of the session for a path from the computer player to the target.
    pub fn find_path(&mut self, maze_state: &MazeState) -> (out: Result<SearchOutcome, MazeError>)
        ensures
            answers(
                maze_state.grid_view(),
                Algorithm::Dfs,
                maze_state.computer_player(),
                maze_state.target(),
                out,
            ),
    {
        search_with(
            maze_state.grid(),
            Algorithm::Dfs,
            maze_state.computer_player(),
            maze_state.target(),
        )
    }
}

impl PathFindingAlgorithm for DfsSolver {
    open spec fn algorithm(&self) -> Algorithm {
        Algorithm::Dfs
    }

    fn find_path(&mut self, grid: &Grid, start: Position, end: Position) -> (out: Result<
        SearchOutcome,
        MazeError,
    >) {
        search_with(grid, Algorithm::Dfs, start, end)
    }
}

} // verus!
