//! Path searches on the maze grid: five strategies behind one interface.

pub mod astar;
pub mod best_first;
pub mod bfs;
pub mod dfs;
pub mod dijkstra;
pub mod laws;
pub mod model;
pub mod results;
pub mod safety;
pub mod search;

use crate::error::MazeError;
use crate::grid::{reachable, traversable, walk_between, CellType, Grid, Position};
use crate::pathfinding::model::{ends_in, manhattan, optimal, Algorithm, Task};
use crate::pathfinding::results::{lemma_end_verdict, shortest_walk, visited};
use crate::pathfinding::safety::valid_task;
use crate::pathfinding::search::{outcome_of, reports, search_result, solve, SearchOutcome};
use vstd::prelude::*;

verus! {

/// The Manhattan distance between two cells: the estimate that the
/// best-first and A* strategies steer by.
pub fn heuristic(node: &Position, target: &Position) -> (h: u128)
    ensures
        h == manhattan(*node, *target),
{
    let rows = if node.row <= target.row {
        target.row - node.row
    } else {
        node.row - target.row
    };
    let cols = if node.col <= target.col {
        target.col - node.col
    } else {
        node.col - target.col
    };
    rows as u128 + cols as u128
}

/// The strategy that goes by `name`, if there is one.
pub open spec fn named(name: Seq<char>) -> Option<Algorithm> {
    if name == "BFS"@ {
        Some(Algorithm::Bfs)
    } else if name == "DFS"@ {
        Some(Algorithm::Dfs)
    } else if name == "BEST_FIRST"@ || name == "GREEDY"@ {
        Some(Algorithm::BestFirst)
    } else if name == "A_STAR"@ {
        Some(Algorithm::AStar)
    } else if name == "DIJKSTRA"@ {
        Some(Algorithm::Dijkstra)
    } else {
        None
    }
}

/// Whether two texts are the same, character for character.
pub fn same_text(a: &str, b: &str) -> (same: bool)
    ensures
        same == (a@ == b@),
{
    let n = a.unicode_len();
    if n != b.unicode_len() {
        return false;
    }
    let mut i: usize = 0;
    while i < n
        invariant
            i <= n,
            n == a@.len(),
            n == b@.len(),
            forall|k: int| 0 <= k < i ==> a@[k] == b@[k],
        decreases n - i,
    {
        if a.get_char(i) != b.get_char(i) {
            return false;
        }
        i += 1;
    }
    assert(a@ =~= b@);
    true
}

/// The strategy that goes by `name`: one of `BFS`, `DFS`, `BEST_FIRST` (or
/// `GREEDY`), `A_STAR`, `DIJKSTRA`.
pub fn algorithm_named(name: &str) -> (a: Option<Algorithm>)
    ensures
        a == named(name@),
{
    if same_text(name, "BFS") {
        Some(Algorithm::Bfs)
    } else if same_text(name, "DFS") {
        Some(Algorithm::Dfs)
    } else if same_text(name, "BEST_FIRST") || same_text(name, "GREEDY") {
        Some(Algorithm::BestFirst)
    } else if same_text(name, "A_STAR") {
        Some(Algorithm::AStar)
    } else if same_text(name, "DIJKSTRA") {
        Some(Algorithm::Dijkstra)
    } else {
        None
    }
}

/// What the report of a finished search says about the grid.
///
/// No recorded cell is a wall, and each can be reached from the start. The
/// goal is found exactly if a walk leads to it. The path is then a walk from
/// start to goal, and a shortest one where the strategy is optimal.
/// Otherwise the path is empty, and the start and the recorded cells are
/// exactly the cells that can be reached from the start.
pub open spec fn faithful(
    g: Seq<Seq<CellType>>,
    algorithm: Algorithm,
    start: Position,
    goal: Position,
    o: SearchOutcome,
) -> bool {
    &&& o.start == start
    &&& o.goal == goal
    &&& forall|k: int|
        0 <= k < o.visited@.len() ==> traversable(g, #[trigger] o.visited@[k]) && reachable(
            g,
            start,
            o.visited@[k],
        )
    &&& o.found == reachable(g, start, goal)
    &&& o.found ==> {
        &&& walk_between(g, o.path@, start, goal)
        &&& optimal(algorithm) ==> shortest_walk(g, o.path@, start, goal)
    }
    &&& !o.found ==> {
        &&& o.path@.len() == 0
        &&& forall|p: Position|
            #![trigger reachable(g, start, p)]
            #![trigger o.visited@.contains(p)]
            reachable(g, start, p) <==> p == start || o.visited@.contains(p)
    }
}

/// The report of a finished search is faithful to the grid.
pub proof fn lemma_faithful(t: Task, o: SearchOutcome)
    requires
        valid_task(t),
        outcome_of(t, o),
    ensures
        faithful(t.grid, t.algorithm, t.start, t.goal, o),
{
    let s = choose|s| #[trigger] ends_in(t, s) && reports(t, s, o);
    lemma_end_verdict(t, s);
    assert forall|k: int| 0 <= k < o.visited@.len() implies traversable(
        t.grid,
        #[trigger] o.visited@[k],
    ) && reachable(t.grid, t.start, o.visited@[k]) by {
        assert(s.visits.contains(o.visited@[k]));
        assert(visited(t, s).contains(o.visited@[k]));
    }
    if !o.found {
        assert forall|p: Position|
            #![trigger reachable(t.grid, t.start, p)]
            #![trigger o.visited@.contains(p)]
            reachable(t.grid, t.start, p) <==> p == t.start || o.visited@.contains(p) by {
            assert(visited(t, s).contains(p) <==> p == t.start || s.visits.contains(p));
        }
    }
}

/// What every strategy owes its caller: the result of the search that the
/// model defines, which is faithful to the grid.
pub open spec fn answers(
    g: Seq<Seq<CellType>>,
    algorithm: Algorithm,
    start: Position,
    goal: Position,
    out: Result<SearchOutcome, MazeError>,
) -> bool {
    &&& search_result(g, algorithm, start, goal, out)
    &&& out matches Ok(o) ==> faithful(g, algorithm, start, goal, o)
}

/// Searches with the given strategy and proves the report faithful.
pub fn search_with(grid: &Grid, algorithm: Algorithm, start: Position, goal: Position) -> (out:
    Result<SearchOutcome, MazeError>)
    ensures
        answers(grid@, algorithm, start, goal, out),
{
    let out = solve(grid, algorithm, start, goal);
    proof {
        if out is Ok {
            lemma_faithful(Task { grid: grid@, algorithm, start, goal }, out->Ok_0);
        }
    }
    out
}

/// A search strategy: given a grid and two cells, it looks for a path
/// between them and reports the cells it recorded on the way.
pub trait PathFindingAlgorithm {
    /// The strategy that this solver follows.
    spec fn algorithm(&self) -> Algorithm;

    fn find_path(&mut self, grid: &Grid, start: Position, end: Position) -> (out: Result<
        SearchOutcome,
        MazeError,
    >)
        ensures
            answers(grid@, old(self).algorithm(), start, end, out),
            final(self).algorithm() == old(self).algorithm(),
    ;
}

} // verus!
