//! The search as it runs: one step at a time, or to its end.

use crate::error::MazeError;
use crate::grid::{
    cell_index, in_bounds, lemma_cell_index, lemma_neighbor_is_adjacent, seq_of, traversable,
    walk_between, width, CellType, Direction, Grid, Position,
};
use crate::pathfinding::model::{
    ends_in, expand, found_path, goes_before, improves, initial, key_of, least_index, pick,
    record, relax, run, step, trail, without, Algorithm, SearchState, Status, Task, Ticket,
};
use crate::pathfinding::heuristic;
use crate::pathfinding::results::lemma_trail;
use crate::pathfinding::safety::{lemma_pop, lemma_run, parent_ok, sound, valid_task};
use std::collections::VecDeque;
use vstd::prelude::*;

verus! {

/// A frontier entry as the search stores it.
#[derive(Clone, Copy, PartialEq, Eq, Structural, Debug)]
pub struct Entry {
    pub key: u128,
    pub pos: Position,
}

impl View for Entry {
    type V = Ticket;

    open spec fn view(&self) -> Ticket {
        Ticket { key: self.key as int, pos: self.pos }
    }
}

/// The frontier entries as the model sees them.
pub open spec fn tickets(f: Seq<Entry>) -> Seq<Ticket> {
    Seq::new(f.len(), |i: int| f[i]@)
}

/// What one step of a search did.
#[derive(Debug)]
pub enum StepEvent {
    /// A cell was expanded; these cells were recorded, in this order.
    Visited(Vec<Position>),
    /// The goal was taken from the frontier; this is the path to it.
    Found(Vec<Position>),
    /// The frontier is empty: the goal cannot be reached.
    Exhausted,
}

/// What a search that ran to its end has to show.
#[derive(Debug)]
pub struct SearchOutcome {
    /// Whether the goal was reached.
    pub found: bool,
    pub start: Position,
    pub goal: Position,
    /// The path from start to goal, both included; empty if the goal was not reached.
    pub path: Vec<Position>,
    /// The cells in the order in which the search recorded them. The start is not among them.
    pub visited: Vec<Position>,
}

/// `o` reports the state `s` in which the search for `t` ended.
pub open spec fn reports(t: Task, s: SearchState, o: SearchOutcome) -> bool {
    &&& o.found == (s.status == Status::Found)
    &&& o.start == t.start
    &&& o.goal == t.goal
    &&& o.path@ == found_path(t, s)
    &&& o.visited@ == s.visits
}

/// `o` is what the search for `t` has to show once it has ended.
pub open spec fn outcome_of(t: Task, o: SearchOutcome) -> bool {
    exists|s: SearchState| #[trigger] ends_in(t, s) && reports(t, s, o)
}

/// What a cell adds to the potential: its recorded cost, or `big` if it has none.
pub open spec fn weight(c: Option<usize>, big: nat) -> nat {
    match c {
        Some(g) => g as nat,
        None => big,
    }
}

/// The sum of the recorded costs, a cell without one counting as `big`.
pub open spec fn potential(costs: Seq<Option<usize>>, big: nat) -> nat
    decreases costs.len(),
{
    if costs.len() == 0 {
        0
    } else {
        potential(costs.drop_last(), big) + weight(costs.last(), big)
    }
}

/// The number of cells with a recorded cost.
pub open spec fn tally(costs: Seq<Option<usize>>) -> nat
    decreases costs.len(),
{
    if costs.len() == 0 {
        0
    } else {
        tally(costs.drop_last()) + if costs.last() is Some {
            1nat
        } else {
            0nat
        }
    }
}

proof fn lemma_tally_bound(costs: Seq<Option<usize>>, i: int)
    requires
        0 <= i < costs.len(),
    ensures
        tally(costs) <= costs.len(),
        costs[i] is None ==> tally(costs) < costs.len(),
    decreases costs.len(),
{
    let front = costs.drop_last();
    if i < costs.len() - 1 {
        lemma_tally_bound(front, i);
    } else if front.len() > 0 {
        lemma_tally_bound(front, 0);
    }
}

proof fn lemma_tally_update(costs: Seq<Option<usize>>, i: int, g: usize, big: nat)
    requires
        0 <= i < costs.len(),
    ensures
        tally(costs.update(i, Some(g))) == tally(costs) + if costs[i] is None {
            1nat
        } else {
            0nat
        },
        potential(costs.update(i, Some(g)), big) + weight(costs[i], big) == potential(costs, big)
            + g,
    decreases costs.len(),
{
    let after = costs.update(i, Some(g));
    if i < costs.len() - 1 {
        lemma_tally_update(costs.drop_last(), i, g, big);
        assert(after.drop_last() == costs.drop_last().update(i, Some(g)));
    } else {
        assert(after.drop_last() == costs.drop_last());
    }
}

/// The costs as a map from cells.
pub open spec fn cost_map(g: Seq<Seq<CellType>>, costs: Seq<Option<usize>>) -> Map<
    Position,
    int,
> {
    Map::new(
        |p: Position| in_bounds(g, p) && costs[cell_index(width(g), p)] is Some,
        |p: Position| costs[cell_index(width(g), p)]->0 as int,
    )
}

/// The parent links as a map from cells.
pub open spec fn parent_map(g: Seq<Seq<CellType>>, parents: Seq<Option<Position>>) -> Map<
    Position,
    Position,
> {
    Map::new(
        |p: Position| in_bounds(g, p) && parents[cell_index(width(g), p)] is Some,
        |p: Position| parents[cell_index(width(g), p)]->0,
    )
}

/// The key under which a cell reached at `cost` enters the frontier.
pub fn priority(algorithm: Algorithm, cost: usize, p: Position, goal: Position) -> (key: u128)
    ensures
        key == key_of(algorithm, cost as int, p, goal),
{
    match algorithm {
        Algorithm::Bfs => cost as u128,
        Algorithm::Dfs => cost as u128,
        Algorithm::Dijkstra => cost as u128,
        Algorithm::AStar => cost as u128 + heuristic(&p, &goal),
        Algorithm::BestFirst => heuristic(&p, &goal),
    }
}

/// Whether `a` leaves a priority frontier before `b`: lower key first, then
/// lower column, then lower row.
pub fn leaves_first(a: &Entry, b: &Entry) -> (r: bool)
    ensures
        r == goes_before(a@, b@),
{
    a.key < b.key || (a.key == b.key && (a.pos.col < b.pos.col || (a.pos.col == b.pos.col
        && a.pos.row < b.pos.row)))
}

/// A search in progress.
pub struct Search<'a> {
    grid: &'a Grid,
    algorithm: Algorithm,
    start: Position,
    goal: Position,
    frontier: VecDeque<Entry>,
    costs: Vec<Option<usize>>,
    parents: Vec<Option<Position>>,
    visits: Vec<Position>,
    status: Status,
    steps: Ghost<nat>,
}

impl<'a> View for Search<'a> {
    type V = SearchState;

    closed spec fn view(&self) -> SearchState {
        SearchState {
            frontier: tickets(self.frontier@),
            cost: cost_map(self.grid@, self.costs@),
            parent: parent_map(self.grid@, self.parents@),
            visits: self.visits@,
            status: self.status,
        }
    }
}

impl<'a> Search<'a> {
    /// What the search was asked to do.
    pub closed spec fn task(&self) -> Task {
        Task { grid: self.grid@, algorithm: self.algorithm, start: self.start, goal: self.goal }
    }

    /// The number of steps taken so far.
    pub closed spec fn steps(&self) -> nat {
        self.steps@
    }

    /// The tables have the shape of the grid, and no recorded cost is out of range.
    spec fn shaped(&self) -> bool {
        &&& self.grid.wf()
        &&& valid_task(self.task())
        &&& self.costs@.len() == self.grid@.len() * width(self.grid@)
        &&& self.parents@.len() == self.costs@.len()
        &&& forall|i: int|
            0 <= i < self.costs@.len() && (#[trigger] self.costs@[i]) is Some
                ==> self.costs@[i]->0 < tally(self.costs@)
    }

    /// The search is in a state that its steps have led to.
    pub closed spec fn wf(&self) -> bool {
        &&& self.shaped()
        &&& self@ == run(self.task(), self.steps@)
    }

    /// A bound on the work that is left; every step of a running search lowers it.
    pub closed spec fn fuel(&self) -> nat {
        2 * potential(self.costs@, self.costs@.len()) + self.frontier@.len() + if self.status
            == Status::Running {
            1nat
        } else {
            0nat
        }
    }

    /// Starts a search. Fails with `InvalidEndpoint` if the start, or else the
    /// goal, is a wall or lies outside the grid.
    pub fn new(grid: &'a Grid, algorithm: Algorithm, start: Position, goal: Position) -> (out:
        Result<Search<'a>, MazeError>)
        ensures
            grid.wf(),
            match out {
                Ok(search) => {
                    &&& traversable(grid@, start)
                    &&& traversable(grid@, goal)
                    &&& search.wf()
                    &&& search.steps() == 0
                    &&& search@ == initial(search.task())
                    &&& search.task() == (Task { grid: grid@, algorithm, start, goal })
                },
                Err(MazeError::InvalidEndpoint(p)) => {
                    &&& !traversable(grid@, p)
                    &&& p == start || (traversable(grid@, start) && p == goal)
                },
                Err(_) => false,
            },
    {
        if !grid.traversable(start) {
            return Err(MazeError::InvalidEndpoint(start));
        }
        if !grid.traversable(goal) {
            return Err(MazeError::InvalidEndpoint(goal));
        }
        let n = grid.cell_count();
        let mut costs: Vec<Option<usize>> = Vec::new();
        let mut parents: Vec<Option<Position>> = Vec::new();
        let mut i: usize = 0;
        while i < n
            invariant
                i <= n,
                costs@.len() == i,
                parents@.len() == i,
                tally(costs@) == 0,
                forall|k: int| 0 <= k < i ==> (#[trigger] costs@[k]) is None,
                forall|k: int| 0 <= k < i ==> (#[trigger] parents@[k]) is None,
            decreases n - i,
        {
            proof {
                assert(costs@.push(None).drop_last() == costs@);
            }
            costs.push(None);
            parents.push(None);
            i += 1;
        }
        let at = grid.index_of(start);
        let ghost blank = costs@;
        costs[at] = Some(0);
        let mut frontier: VecDeque<Entry> = VecDeque::new();
        frontier.push_back(Entry { key: priority(algorithm, 0, start, goal), pos: start });
        let search = Search {
            grid,
            algorithm,
            start,
            goal,
            frontier,
            costs,
            parents,
            visits: Vec::new(),
            status: Status::Running,
            steps: Ghost(0),
        };
        proof {
            lemma_tally_update(blank, at as int, 0, n as nat);
            let t = search.task();
            let s = search@;
            assert(s.frontier == initial(t).frontier);
            assert(s.cost == initial(t).cost) by {
                assert forall|p: Position| s.cost.contains_key(p) <==> initial(
                    t,
                ).cost.contains_key(p) by {
                    if in_bounds(grid@, p) {
                        lemma_cell_index(grid@, p, start);
                    }
                }
            }
            assert(s.parent == initial(t).parent) by {
                assert forall|p: Position| !s.parent.contains_key(p) by {
                    if in_bounds(grid@, p) {
                        lemma_cell_index(grid@, p, p);
                    }
                }
            }
            assert(s.visits == initial(t).visits);
        }
        Ok(search)
    }

    /// Where the search stands.
    pub fn status(&self) -> (st: Status)
        ensures
            st == self@.status,
    {
        self.status
    }

    /// The cells recorded so far, in the order in which they were recorded.
    pub fn visits(&self) -> (v: &Vec<Position>)
        ensures
            v@ == self@.visits,
    {
        &self.visits
    }

    /// The index of the frontier entry that leaves a priority frontier first.
    fn least(&self) -> (i: usize)
        requires
            self.frontier@.len() > 0,
        ensures
            i == least_index(tickets(self.frontier@)),
            i < self.frontier@.len(),
    {
        let ghost all = tickets(self.frontier@);
        let mut best: usize = 0;
        let mut i: usize = 1;
        proof {
            assert(least_index(all.take(1)) == 0);
        }
        while i < self.frontier.len()
            invariant
                1 <= i <= self.frontier@.len(),
                all == tickets(self.frontier@),
                best == least_index(all.take(i as int)),
                best < i,
            decreases self.frontier@.len() - i,
        {
            proof {
                let longer = all.take(i + 1);
                assert(longer.drop_last() == all.take(i as int));
                assert(longer.last() == self.frontier@[i as int]@);
                assert(all.take(i as int)[best as int] == self.frontier@[best as int]@);
            }
            if leaves_first(&self.frontier[i], &self.frontier[best]) {
                best = i;
            }
            i += 1;
        }
        proof {
            assert(all.take(all.len() as int) == all);
        }
        best
    }

    /// Takes from the frontier the entry whose turn it is.
    fn take(&mut self) -> (e: Option<Entry>)
        requires
            old(self).shaped(),
        ensures
            final(self).shaped(),
            final(self).task() == old(self).task(),
            final(self).steps() == old(self).steps(),
            final(self).costs == old(self).costs,
            final(self).status == old(self).status,
            match e {
                Some(x) => {
                    let i = pick(old(self).task().algorithm, old(self)@.frontier);
                    &&& old(self)@.frontier.len() > 0
                    &&& 0 <= i < old(self)@.frontier.len()
                    &&& x@ == old(self)@.frontier[i]
                    &&& final(self)@ == without(old(self)@, i)
                    &&& final(self).frontier@.len() + 1 == old(self).frontier@.len()
                },
                None => old(self)@.frontier.len() == 0 && final(self)@ == old(self)@
                    && final(self).frontier@.len() == 0,
            },
    {
        let ghost before = self.frontier@;
        if self.frontier.len() == 0 {
            return None;
        }
        let e = match self.algorithm {
            Algorithm::Bfs => self.frontier.pop_front(),
            Algorithm::Dfs => self.frontier.pop_back(),
            _ => {
                let i = self.least();
                self.frontier.remove(i)
            },
        };
        proof {
            let i = pick(self.algorithm, tickets(before));
            assert(self.frontier@ == before.remove(i));
            assert(tickets(before.remove(i)) == tickets(before).remove(i));
        }
        e
    }

    /// Tries the move `d` from the visited cell `c`. Returns the cell that was
    /// recorded, if one was.
    fn relax(&mut self, c: Position, d: Direction) -> (hit: Option<Position>)
        requires
            old(self).shaped(),
            old(self)@.cost.contains_key(c),
        ensures
            final(self).shaped(),
            final(self).task() == old(self).task(),
            final(self).steps() == old(self).steps(),
            final(self).status == old(self).status,
            final(self)@ == relax(old(self).task(), old(self)@, c, d),
            final(self)@.cost.contains_key(c),
            final(self).fuel() <= old(self).fuel(),
            final(self)@.visits == old(self)@.visits + seq_of(hit),
    {
        let ghost t = self.task();
        let ghost s = self@;
        let ghost old_costs = self.costs@;
        let ghost old_parents = self.parents@;
        let ghost old_frontier = self.frontier@;
        match self.grid.neighbor(c, d) {
            Some(n) => {
                if self.grid.traversable(n) {
                    let ci = self.grid.index_of(c);
                    let ni = self.grid.index_of(n);
                    proof {
                        lemma_neighbor_is_adjacent(t.grid, c, d);
                        lemma_cell_index(t.grid, c, n);
                        lemma_tally_bound(old_costs, ni as int);
                    }
                    let base = match self.costs[ci] {
                        Some(g) => g,
                        None => 0,
                    };
                    let better = match self.costs[ni] {
                        None => true,
                        Some(known) => match self.algorithm {
                            Algorithm::AStar => base + 1 < known,
                            Algorithm::Dijkstra => base + 1 < known,
                            _ => false,
                        },
                    };
                    assert(better == improves(t.algorithm, s.cost, c, n));
                    if better {
                        let g = base + 1;
                        self.costs[ni] = Some(g);
                        self.parents[ni] = Some(c);
                        self.frontier.push_back(
                            Entry { key: priority(self.algorithm, g, n, self.goal), pos: n },
                        );
                        self.visits.push(n);
                        proof {
                            let s2 = record(t, s, c, n);
                            lemma_tally_update(
                                old_costs,
                                ni as int,
                                g,
                                old_costs.len(),
                            );
                            assert(self@.frontier == s2.frontier);
                            assert(self@.cost == s2.cost) by {
                                assert forall|p: Position| #[trigger]
                                    self@.cost.contains_key(p) <==> s2.cost.contains_key(p) by {
                                    if in_bounds(t.grid, p) {
                                        lemma_cell_index(t.grid, p, n);
                                    }
                                }
                                assert forall|p: Position| #[trigger]
                                    self@.cost.contains_key(p) implies self@.cost[p]
                                    == s2.cost[p] by {
                                    lemma_cell_index(t.grid, p, n);
                                }
                            }
                            assert(self@.parent == s2.parent) by {
                                assert forall|p: Position| #[trigger]
                                    self@.parent.contains_key(p) <==> s2.parent.contains_key(
                                        p,
                                    ) by {
                                    if in_bounds(t.grid, p) {
                                        lemma_cell_index(t.grid, p, n);
                                    }
                                }
                                assert forall|p: Position| #[trigger]
                                    self@.parent.contains_key(p) implies self@.parent[p]
                                    == s2.parent[p] by {
                                    lemma_cell_index(t.grid, p, n);
                                }
                            }
                            assert(self@ == s2);
                            assert(self@.visits == s.visits + seq![n]);
                        }
                        return Some(n);
                    }
                }
            },
            None => {},
        }
        proof {
            assert(self@.visits == s.visits + Seq::<Position>::empty());
        }
        None
    }

    /// Follows the parent links back from the visited cell `v` and returns the
    /// way from its far end to `v`.
    fn trail_to(&self, v: Position) -> (path: Vec<Position>)
        requires
            self.shaped(),
            sound(self.task(), self@),
            self@.cost.contains_key(v),
        ensures
            path@ == trail(self@.parent, v, self@.cost[v] as nat),
    {
        let ghost t = self.task();
        let ghost s = self@;
        let ghost full = trail(s.parent, v, s.cost[v] as nat);
        let mut back: Vec<Position> = Vec::new();
        let mut cur = v;
        let mut link = self.parents[self.grid.index_of(cur)];
        proof {
            assert(back@.reverse() == Seq::<Position>::empty());
            assert(full + Seq::<Position>::empty() == full);
        }
        while link.is_some()
            invariant
                self.shaped(),
                sound(t, s),
                t == self.task(),
                s == self@,
                s.cost.contains_key(cur),
                link == self.parents@[cell_index(width(self.grid@), cur)],
                full == trail(s.parent, cur, s.cost[cur] as nat) + back@.reverse(),
            decreases s.cost[cur],
        {
            let p = link.unwrap();
            proof {
                assert(s.parent.contains_key(cur));
                assert(s.parent[cur] == p);
                assert(parent_ok(s, cur));
                lemma_trail(t, s, p, (s.cost[cur] - 1) as nat);
                let grown = back@.push(cur);
                assert(grown.reverse() == seq![cur] + back@.reverse());
                assert(trail(s.parent, cur, s.cost[cur] as nat) == trail(
                    s.parent,
                    p,
                    s.cost[p] as nat,
                ).push(cur));
                assert(trail(s.parent, p, s.cost[p] as nat).push(cur) + back@.reverse() == trail(
                    s.parent,
                    p,
                    s.cost[p] as nat,
                ) + (seq![cur] + back@.reverse()));
            }
            back.push(cur);
            cur = p;
            link = self.parents[self.grid.index_of(cur)];
        }
        proof {
            assert(!s.parent.contains_key(cur));
            assert(trail(s.parent, cur, s.cost[cur] as nat) == seq![cur]);
        }
        let mut path: Vec<Position> = Vec::new();
        path.push(cur);
        let mut k: usize = back.len();
        let ghost turned = back@.reverse();
        proof {
            assert(turned.take(0) == Seq::<Position>::empty());
            assert(path@ == seq![cur] + turned.take(0));
        }
        while k > 0
            invariant
                k <= back@.len(),
                turned == back@.reverse(),
                path@ == seq![cur] + turned.take(back@.len() - k),
            decreases k,
        {
            k -= 1;
            proof {
                let j = back@.len() - k - 1;
                assert(turned[j] == back@[k as int]);
                assert(turned.take(j + 1) == turned.take(j).push(turned[j]));
                assert((seq![cur] + turned.take(j)).push(turned[j]) == seq![cur] + turned.take(
                    j + 1,
                ));
            }
            path.push(back[k]);
        }
        proof {
            assert(turned.take(turned.len() as int) == turned);
        }
        path
    }

    /// The way from the start to `goal` along the parent links.
    ///
    /// Fails with `UnreachablePath` exactly if the search has not visited `goal`.
    pub fn path_to(&self, goal: Position) -> (out: Result<Vec<Position>, MazeError>)
        requires
            self.wf(),
        ensures
            match out {
                Ok(path) => {
                    &&& self@.cost.contains_key(goal)
                    &&& path@ == trail(self@.parent, goal, self@.cost[goal] as nat)
                    &&& walk_between(self.task().grid, path@, self.task().start, goal)
                },
                Err(MazeError::UnreachablePath(p)) => p == goal && !self@.cost.contains_key(goal),
                Err(_) => false,
            },
    {
        proof {
            lemma_run(self.task(), self.steps@);
        }
        let rows = self.grid.rows();
        let cols = self.grid.cols();
        if goal.row < rows && goal.col < cols {
            let i = self.grid.index_of(goal);
            if self.costs[i].is_some() {
                proof {
                    lemma_trail(self.task(), self@, goal, self@.cost[goal] as nat);
                }
                return Ok(self.trail_to(goal));
            }
        }
        Err(MazeError::UnreachablePath(goal))
    }

    /// Tries the four moves from the visited cell `c` and returns the cells
    /// that were recorded.
    fn expand_cell(&mut self, c: Position) -> (cells: Vec<Position>)
        requires
            old(self).shaped(),
            old(self)@.cost.contains_key(c),
        ensures
            final(self).shaped(),
            final(self).task() == old(self).task(),
            final(self).steps() == old(self).steps(),
            final(self).status == old(self).status,
            final(self)@ == expand(old(self).task(), old(self)@, c),
            final(self).fuel() <= old(self).fuel(),
            final(self)@.visits == old(self)@.visits + cells@,
    {
        let ghost v0 = self@.visits;
        let mut cells: Vec<Position> = Vec::new();
        if let Some(hit) = self.relax(c, Direction::Up) {
            cells.push(hit);
        }
        assert(self@.visits == v0 + cells@);
        if let Some(hit) = self.relax(c, Direction::Down) {
            cells.push(hit);
        }
        assert(self@.visits == v0 + cells@);
        if let Some(hit) = self.relax(c, Direction::Left) {
            cells.push(hit);
        }
        assert(self@.visits == v0 + cells@);
        if let Some(hit) = self.relax(c, Direction::Right) {
            cells.push(hit);
        }
        assert(self@.visits == v0 + cells@);
        cells
    }

    /// Ends the search with the given status; `self` holds what the step leaves.
    fn close(&mut self, status: Status) -> (ev: StepEvent)
        requires
            old(self).shaped(),
            status != Status::Running,
            (SearchState { status, ..old(self)@ }) == run(
                old(self).task(),
                old(self).steps() + 1,
            ),
        ensures
            final(self).wf(),
            final(self).task() == old(self).task(),
            final(self).steps() == old(self).steps() + 1,
            final(self)@ == (SearchState { status, ..old(self)@ }),
            final(self).frontier == old(self).frontier,
            final(self).costs == old(self).costs,
            match ev {
                StepEvent::Visited(cells) => false,
                StepEvent::Found(path) => status == Status::Found && path@ == found_path(
                    final(self).task(),
                    final(self)@,
                ),
                StepEvent::Exhausted => status == Status::Exhausted,
            },
    {
        let ghost n = self.steps@;
        self.status = status;
        self.steps = Ghost(n + 1);
        match status {
            Status::Found => {
                proof {
                    lemma_run(self.task(), n + 1);
                }
                let path = self.trail_to(self.goal);
                StepEvent::Found(path)
            },
            _ => StepEvent::Exhausted,
        }
    }

    /// Takes one step: expands the next cell of the frontier, or ends the search.
    ///
    /// A search that has ended stays as it is and reports its end again.
    pub fn step(&mut self) -> (ev: StepEvent)
        requires
            old(self).wf(),
        ensures
            final(self).wf(),
            final(self).task() == old(self).task(),
            final(self).steps() == old(self).steps() + 1,
            final(self)@ == step(old(self).task(), old(self)@),
            old(self)@.status == Status::Running ==> final(self).fuel() < old(self).fuel(),
            match ev {
                StepEvent::Visited(cells) => {
                    &&& final(self)@.status == Status::Running
                    &&& final(self)@.visits == old(self)@.visits + cells@
                },
                StepEvent::Found(path) => {
                    &&& final(self)@.status == Status::Found
                    &&& final(self)@.visits == old(self)@.visits
                    &&& path@ == found_path(final(self).task(), final(self)@)
                },
                StepEvent::Exhausted => {
                    &&& final(self)@.status == Status::Exhausted
                    &&& final(self)@.visits == old(self)@.visits
                },
            },
    {
        let ghost t = self.task();
        let ghost s = self@;
        let ghost n = self.steps@;
        match self.status {
            Status::Running => {},
            ended => {
                return self.close(ended);
            },
        }
        let next = self.take();
        match next {
            None => self.close(Status::Exhausted),
            Some(e) => {
                let c = e.pos;
                if c == self.goal {
                    self.close(Status::Found)
                } else {
                    proof {
                        lemma_run(t, n);
                        lemma_pop(t, s);
                    }
                    let cells = self.expand_cell(c);
                    self.steps = Ghost(n + 1);
                    StepEvent::Visited(cells)
                }
            },
        }
    }

    /// The state of a search is the one that its steps lead to from the start.
    pub proof fn lemma_state(&self)
        requires
            self.wf(),
        ensures
            self@ == run(self.task(), self.steps()),
            valid_task(self.task()),
    {
    }

    /// Takes steps until the search has ended, but at most `max_steps`.
    /// A search that is still running afterwards can be taken up again, or
    /// be dropped: this is how a caller calls a search off.
    pub fn advance(&mut self, max_steps: usize) -> (status: Status)
        requires
            old(self).wf(),
        ensures
            final(self).wf(),
            final(self).task() == old(self).task(),
            status == final(self)@.status,
            old(self).steps() <= final(self).steps() <= old(self).steps() + max_steps,
            status == Status::Running ==> final(self).steps() == old(self).steps() + max_steps,
            old(self)@.status != Status::Running ==> final(self).steps() == old(self).steps(),
    {
        let mut taken: usize = 0;
        while taken < max_steps && self.status == Status::Running
            invariant
                self.wf(),
                self.task() == old(self).task(),
                taken <= max_steps,
                self.steps() == old(self).steps() + taken,
                taken == 0 ==> self@.status == old(self)@.status,
                old(self)@.status != Status::Running ==> taken == 0,
            decreases max_steps - taken,
        {
            self.step();
            taken += 1;
        }
        self.status
    }

    /// Runs the search to its end and reports it.
    pub fn finish(self) -> (o: SearchOutcome)
        requires
            self.wf(),
        ensures
            outcome_of(self.task(), o),
    {
        let ghost t = self.task();
        let mut search = self;
        let mut path: Vec<Position> = Vec::new();
        if search.status == Status::Found {
            proof {
                lemma_run(t, search.steps@);
            }
            path = search.trail_to(search.goal);
        }
        while search.status == Status::Running
            invariant
                search.wf(),
                search.task() == t,
                path@ == found_path(t, search@),
            decreases search.fuel(),
        {
            match search.step() {
                StepEvent::Found(p) => {
                    path = p;
                },
                _ => {},
            }
        }
        proof {
            assert(run(t, search.steps@) == search@);
            assert(ends_in(t, search@));
        }
        let found = search.status == Status::Found;
        let out = SearchOutcome {
            found,
            start: search.start,
            goal: search.goal,
            path,
            visited: search.visits,
        };
        proof {
            assert(reports(t, search@, out));
        }
        out
    }
}

/// What a search for the way from `start` to `goal` must return: an
/// `InvalidEndpoint` for the start, or else the goal, if it is no open cell
/// of the grid; otherwise what the search has to show at its end.
pub open spec fn search_result(
    g: Seq<Seq<CellType>>,
    algorithm: Algorithm,
    start: Position,
    goal: Position,
    out: Result<SearchOutcome, MazeError>,
) -> bool {
    match out {
        Ok(o) => {
            &&& traversable(g, start)
            &&& traversable(g, goal)
            &&& outcome_of(Task { grid: g, algorithm, start, goal }, o)
        },
        Err(MazeError::InvalidEndpoint(p)) => {
            &&& !traversable(g, p)
            &&& p == start || (traversable(g, start) && p == goal)
        },
        Err(_) => false,
    }
}

/// Searches the grid for a way from `start` to `goal` with the given strategy.
pub fn solve(grid: &Grid, algorithm: Algorithm, start: Position, goal: Position) -> (out: Result<
    SearchOutcome,
    MazeError,
>)
    ensures
        grid.wf(),
        search_result(grid@, algorithm, start, goal, out),
{
    match Search::new(grid, algorithm, start, goal) {
        Ok(search) => Ok(search.finish()),
        Err(e) => Err(e),
    }
}

} // verus!
