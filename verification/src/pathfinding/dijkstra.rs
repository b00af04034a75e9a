//! Dijkstra's search: the frontier gives out the cell with the least cost so far.

use crate::error::MazeError;
use crate::grid::{Grid, Position};
use crate::maze::MazeState;
use crate::pathfinding::model::Algorithm;
use crate::pathfinding::search::SearchOutcome;
use crate::pathfinding::{answers, search_with, PathFindingAlgorithm};
use vstd::prelude::*;

verus! {

/// Dijkstra's strategy.
#[derive(Clone, Copy, Debug, Default)]
pub struct DijkstraSolver;

impl DijkstraSolver {
    /// Searches the maze of the session for a path from the computer player to the target.
    pub fn find_path(&mut self, maze_state: &MazeState) -> (out: Result<SearchOutcome, MazeError>)
        ensures
            answers(
                maze_state.grid_view(),
                Algorithm::Dijkstra,
                maze_state.computer_player(),
                maze_state.target(),
                out,
            ),
    {
        search_with(
            maze_state.grid(),
            Algorithm::Dijkstra,
            maze_state.computer_player(),
            maze_state.target(),
        )
    }
}

impl PathFindingAlgorithm for DijkstraSolver {
    open spec fn algorithm(&self) -> Algorithm {
        Algorithm::Dijkstra
    }

    fn find_path(&mut self, grid: &Grid, start: Position, end: Position) -> (out: Result<
        SearchOutcome,
        MazeError,
    >) {
        search_with(grid, Algorithm::Dijkstra, start, end)
    }
}

} // verus!
