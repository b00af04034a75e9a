//! Laws that hold of every search, whatever the grid.

use crate::grid::{reachable, traversable, Position};
use crate::pathfinding::model::{
    ends_in, found_path, run, Algorithm, SearchState, Status, Task,
};
use crate::pathfinding::results::{
    lemma_one_end,
    lemma_trail,
    lemma_visited,
    shortest_walk,
    visited,
};
use crate::pathfinding::safety::{lemma_run, parent_ok, valid_task};
use crate::pathfinding::search::{outcome_of, reports, SearchOutcome};
use crate::pathfinding::lemma_faithful;
use vstd::prelude::*;

verus! {

/// No search ever touches a wall: after any number of steps, whatever the
/// strategy, every visited cell, every cell with a parent, every parent, and
/// every cell of the path to the goal is an open cell of the grid.
pub proof fn law_walls_stay_untouched(t: Task, n: nat)
    requires
        valid_task(t),
    ensures
        forall|p: Position| #[trigger]
            visited(t, run(t, n)).contains(p) ==> traversable(t.grid, p),
        forall|p: Position| #[trigger]
            run(t, n).parent.contains_key(p) ==> traversable(t.grid, p) && traversable(
                t.grid,
                run(t, n).parent[p],
            ),
        forall|k: int|
            0 <= k < found_path(t, run(t, n)).len() ==> traversable(
                t.grid,
                #[trigger] found_path(t, run(t, n))[k],
            ),
{
    let s = run(t, n);
    lemma_run(t, n);
    lemma_visited(t, s);
    assert forall|p: Position| #[trigger] s.parent.contains_key(p) implies traversable(
        t.grid,
        p,
    ) && traversable(t.grid, s.parent[p]) by {
        assert(s.cost.contains_key(p));
        assert(parent_ok(s, p));
        assert(s.cost.contains_key(s.parent[p]));
    }
    if s.status == Status::Found {
        lemma_trail(t, s, t.goal, s.cost[t.goal] as nat);
    }
}

/// The path that a breadth-first search reports has as few steps as any walk
/// from the start to the goal.
pub proof fn law_bfs_path_is_shortest(t: Task, o: SearchOutcome)
    requires
        valid_task(t),
        t.algorithm == Algorithm::Bfs,
        outcome_of(t, o),
        reachable(t.grid, t.start, t.goal),
    ensures
        o.found,
        shortest_walk(t.grid, o.path@, t.start, t.goal),
{
    lemma_faithful(t, o);
}

/// On the same grid and endpoints, the paths that A* and Dijkstra's search
/// report cost the same, and no walk from the start to the goal costs less.
pub proof fn law_astar_and_dijkstra_agree(
    a: Task,
    d: Task,
    oa: SearchOutcome,
    od: SearchOutcome,
)
    requires
        valid_task(a),
        a.algorithm == Algorithm::AStar,
        d == (Task { algorithm: Algorithm::Dijkstra, ..a }),
        outcome_of(a, oa),
        outcome_of(d, od),
        reachable(a.grid, a.start, a.goal),
    ensures
        oa.found && od.found,
        oa.path@.len() == od.path@.len(),
        shortest_walk(a.grid, oa.path@, a.start, a.goal),
        shortest_walk(a.grid, od.path@, a.start, a.goal),
{
    lemma_faithful(a, oa);
    lemma_faithful(d, od);
}

/// Running the same search again gives the same report: the same verdict,
/// the same path, and the same cells recorded in the same order.
pub proof fn law_same_search_same_report(t: Task, o1: SearchOutcome, o2: SearchOutcome)
    requires
        outcome_of(t, o1),
        outcome_of(t, o2),
    ensures
        o1.found == o2.found,
        o1.start == o2.start,
        o1.goal == o2.goal,
        o1.path@ == o2.path@,
        o1.visited@ == o2.visited@,
{
    let s1 = choose|s: SearchState| #[trigger]
        ends_in(t, s) && reports(t, s, o1);
    let s2 = choose|s: SearchState| #[trigger]
        ends_in(t, s) && reports(t, s, o2);
    lemma_one_end(t, s1, s2);
}

/// Where no walk leads from the start to the goal, every strategy reports
/// that the goal was not found, and has recorded exactly the cells that can
/// be reached from the start.
pub proof fn law_unreachable_goal(t: Task, o: SearchOutcome)
    requires
        valid_task(t),
        outcome_of(t, o),
        !reachable(t.grid, t.start, t.goal),
    ensures
        !o.found,
        o.path@.len() == 0,
        forall|p: Position|
            #![trigger reachable(t.grid, t.start, p)]
            #![trigger o.visited@.contains(p)]
            reachable(t.grid, t.start, p) <==> p == t.start || o.visited@.contains(p),
{
    lemma_faithful(t, o);
}

} // verus!
