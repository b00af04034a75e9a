//! The searches as a mathematical state machine.
//!
//! All five strategies share one loop: take an entry from the frontier; if it
//! is the goal, stop; otherwise try the four moves from it, recording every
//! cell that is reached for the first time (or, where the strategy tracks
//! costs, more cheaply than before). They differ in which entry is taken and
//! in the key an entry is filed under.

use crate::grid::{neighbor, traversable, CellType, Direction, Position};
use vstd::prelude::*;

verus! {

/// The search strategies.
#[derive(Clone, Copy, PartialEq, Eq, Structural, Debug)]
pub enum Algorithm {
    /// Breadth first: the frontier is a queue.
    Bfs,
    /// Depth first: the frontier is a stack.
    Dfs,
    /// Greedy best first: the entry closest to the goal, as the crow walks, goes first.
    BestFirst,
    /// A*: the entry with the least sum of cost so far and estimated rest goes first.
    AStar,
    /// Dijkstra: the entry with the least cost so far goes first.
    Dijkstra,
}

/// Where a search stands.
#[derive(Clone, Copy, PartialEq, Eq, Structural, Debug)]
pub enum Status {
    Running,
    Found,
    Exhausted,
}

/// A frontier entry: a cell and the key it was filed under.
pub struct Ticket {
    pub key: int,
    pub pos: Position,
}

/// What a search is asked to do.
pub struct Task {
    pub grid: Seq<Seq<CellType>>,
    pub algorithm: Algorithm,
    pub start: Position,
    pub goal: Position,
}

/// The state of a search between two steps.
pub struct SearchState {
    /// The entries awaiting expansion, oldest first.
    pub frontier: Seq<Ticket>,
    /// The visited cells, each with the cost recorded for it.
    pub cost: Map<Position, int>,
    /// For every visited cell but the start, the cell it was reached from.
    pub parent: Map<Position, Position>,
    /// The cells in the order in which they were recorded.
    pub visits: Seq<Position>,
    pub status: Status,
}

/// How far apart two numbers are.
pub open spec fn distance(a: int, b: int) -> int {
    if a <= b {
        b - a
    } else {
        a - b
    }
}

/// The Manhattan distance between two cells.
pub open spec fn manhattan(a: Position, b: Position) -> int {
    distance(a.row as int, b.row as int) + distance(a.col as int, b.col as int)
}

/// Whether the strategy records a cheaper way to a cell that it has already visited.
pub open spec fn relaxes(a: Algorithm) -> bool {
    a == Algorithm::AStar || a == Algorithm::Dijkstra
}

/// Whether the strategy finds a shortest path.
pub open spec fn optimal(a: Algorithm) -> bool {
    a == Algorithm::Bfs || a == Algorithm::AStar || a == Algorithm::Dijkstra
}

/// The key under which `p`, reached at cost `cost`, enters the frontier.
pub open spec fn key_of(a: Algorithm, cost: int, p: Position, goal: Position) -> int {
    match a {
        Algorithm::Bfs => cost,
        Algorithm::Dfs => cost,
        Algorithm::Dijkstra => cost,
        Algorithm::AStar => cost + manhattan(p, goal),
        Algorithm::BestFirst => manhattan(p, goal),
    }
}

/// The order of a priority frontier: by key, then by column, then by row.
pub open spec fn goes_before(a: Ticket, b: Ticket) -> bool {
    ||| a.key < b.key
    ||| a.key == b.key && a.pos.col < b.pos.col
    ||| a.key == b.key && a.pos.col == b.pos.col && a.pos.row < b.pos.row
}

/// The index of the entry that goes before all others; among equal entries, the oldest.
pub open spec fn least_index(f: Seq<Ticket>) -> int
    decreases f.len(),
{
    if f.len() <= 1 {
        0
    } else {
        let best = least_index(f.drop_last());
        if goes_before(f.last(), f[best]) {
            f.len() - 1
        } else {
            best
        }
    }
}

/// The index of the entry that the strategy takes next from a frontier that is not empty.
pub open spec fn pick(a: Algorithm, f: Seq<Ticket>) -> int {
    match a {
        Algorithm::Bfs => 0,
        Algorithm::Dfs => f.len() - 1,
        _ => least_index(f),
    }
}

/// Whether reaching `n` from `c` is worth recording.
pub open spec fn improves(a: Algorithm, cost: Map<Position, int>, c: Position, n: Position) -> bool {
    if relaxes(a) {
        !cost.contains_key(n) || cost[c] + 1 < cost[n]
    } else {
        !cost.contains_key(n)
    }
}

/// The state after `n` has been recorded as reached from `c`.
pub open spec fn record(t: Task, s: SearchState, c: Position, n: Position) -> SearchState {
    let cost = s.cost[c] + 1;
    SearchState {
        frontier: s.frontier.push(Ticket { key: key_of(t.algorithm, cost, n, t.goal), pos: n }),
        cost: s.cost.insert(n, cost),
        parent: s.parent.insert(n, c),
        visits: s.visits.push(n),
        status: s.status,
    }
}

/// The state after the move `d` from `c` has been tried.
pub open spec fn relax(t: Task, s: SearchState, c: Position, d: Direction) -> SearchState {
    match neighbor(t.grid, c, d) {
        Some(n) => if traversable(t.grid, n) && improves(t.algorithm, s.cost, c, n) {
            record(t, s, c, n)
        } else {
            s
        },
        None => s,
    }
}

/// The state after all four moves from `c` have been tried: up, down, left, right.
pub open spec fn expand(t: Task, s: SearchState, c: Position) -> SearchState {
    relax(
        t,
        relax(t, relax(t, relax(t, s, c, Direction::Up), c, Direction::Down), c, Direction::Left),
        c,
        Direction::Right,
    )
}

/// The state in which a search starts: only the start is visited and awaits expansion.
pub open spec fn initial(t: Task) -> SearchState {
    SearchState {
        frontier: seq![Ticket { key: key_of(t.algorithm, 0, t.start, t.goal), pos: t.start }],
        cost: Map::empty().insert(t.start, 0int),
        parent: Map::empty(),
        visits: Seq::empty(),
        status: Status::Running,
    }
}

/// `s` without the frontier entry at index `i`.
pub open spec fn without(s: SearchState, i: int) -> SearchState {
    SearchState { frontier: s.frontier.remove(i), ..s }
}

/// One step of a search. A search that has ended stays as it is.
pub open spec fn step(t: Task, s: SearchState) -> SearchState {
    if s.status != Status::Running {
        s
    } else if s.frontier.len() == 0 {
        SearchState { status: Status::Exhausted, ..s }
    } else {
        let i = pick(t.algorithm, s.frontier);
        let c = s.frontier[i].pos;
        if c == t.goal {
            SearchState { status: Status::Found, ..without(s, i) }
        } else {
            expand(t, without(s, i), c)
        }
    }
}

/// The state after `n` steps.
pub open spec fn run(t: Task, n: nat) -> SearchState
    decreases n,
{
    if n == 0 {
        initial(t)
    } else {
        step(t, run(t, (n - 1) as nat))
    }
}

/// `s` is the state in which the search for `t` ends.
pub open spec fn ends_in(t: Task, s: SearchState) -> bool {
    s.status != Status::Running && exists|n: nat| #[trigger] run(t, n) == s
}

/// The way back from `v` along the parent links, written from its far end to `v`.
/// It follows at most `n` links.
pub open spec fn trail(parent: Map<Position, Position>, v: Position, n: nat) -> Seq<Position>
    decreases n,
{
    if n == 0 || !parent.contains_key(v) {
        seq![v]
    } else {
        trail(parent, parent[v], (n - 1) as nat).push(v)
    }
}

/// The path that a search has found: the trail of the goal.
pub open spec fn found_path(t: Task, s: SearchState) -> Seq<Position> {
    if s.status == Status::Found {
        trail(s.parent, t.goal, s.cost[t.goal] as nat)
    } else {
        Seq::empty()
    }
}

} // verus!
