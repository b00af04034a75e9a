//! What a search that has ended has established.

use crate::grid::{
    adjacent,
    is_walk,
    lemma_walk_push,
    linked,
    reachable,
    traversable,
    walk_between,
    CellType,
    Position,
};
use crate::pathfinding::model::{
    ends_in,
    found_path,
    optimal,
    run,
    trail,
    SearchState,
    Status,
    Task,
};
use crate::pathfinding::safety::{
    edge_done, inv, lemma_run, parent_ok, settled, sound, valid_task,
};
use vstd::prelude::*;

verus! {

/// `w` leads from `a` to `b`, and no walk from `a` to `b` has fewer cells.
pub open spec fn shortest_walk(
    g: Seq<Seq<CellType>>,
    w: Seq<Position>,
    a: Position,
    b: Position,
) -> bool {
    &&& walk_between(g, w, a, b)
    &&& forall|w2: Seq<Position>| #[trigger] walk_between(g, w2, a, b) ==> w.len() <= w2.len()
}

/// The cells that a search has visited: the start and every recorded cell.
pub open spec fn visited(t: Task, s: SearchState) -> Set<Position> {
    Set::new(|p: Position| p == t.start || s.visits.contains(p))
}

/// The trail of a visited cell is a walk from the start to it, with at most
/// as many steps as the cost recorded for the cell.
pub proof fn lemma_trail(t: Task, s: SearchState, v: Position, n: nat)
    requires
        sound(t, s),
        s.cost.contains_key(v),
        n >= s.cost[v],
    ensures
        walk_between(t.grid, trail(s.parent, v, n), t.start, v),
        trail(s.parent, v, n).len() <= s.cost[v] + 1,
        trail(s.parent, v, n) == trail(s.parent, v, s.cost[v] as nat),
    decreases n,
{
    if v == t.start {
        let w = trail(s.parent, v, n);
        assert(w == seq![v]);
        assert(trail(s.parent, v, s.cost[v] as nat) == seq![v]);
        assert(is_walk(t.grid, w));
    } else {
        assert(parent_ok(s, v));
        let u = s.parent[v];
        lemma_trail(t, s, u, (n - 1) as nat);
        lemma_trail(t, s, u, (s.cost[v] - 1) as nat);
        lemma_walk_push(t.grid, trail(s.parent, u, (n - 1) as nat), v);
    }
}

/// The cells with a recorded cost are the start and the recorded cells.
pub proof fn lemma_visited(t: Task, s: SearchState)
    requires
        sound(t, s),
    ensures
        forall|p: Position| visited(t, s).contains(p) <==> #[trigger] s.cost.contains_key(p),
{
    assert forall|p: Position| visited(t, s).contains(p) <==> #[trigger] s.cost.contains_key(
        p,
    ) by {
        if s.visits.contains(p) {
            let k = choose|k: int| 0 <= k < s.visits.len() && s.visits[k] == p;
            assert(s.cost.contains_key(s.visits[k]));
        }
    }
}

/// Once every visited cell is settled, every cell of a walk from the start is visited.
proof fn lemma_walk_visited(t: Task, s: SearchState, w: Seq<Position>, j: int)
    requires
        inv(t, s),
        s.status == Status::Exhausted,
        is_walk(t.grid, w),
        w[0] == t.start,
        0 <= j < w.len(),
    ensures
        s.cost.contains_key(w[j]),
    decreases j,
{
    if j > 0 {
        lemma_walk_visited(t, s, w, j - 1);
        assert(settled(t, s, w[j - 1]));
        assert(linked(w, j - 1));
        assert(traversable(t.grid, w[j]));
        assert(edge_done(t, s, w[j - 1], w[j]));
    }
}

/// What holds of the state in which a search has ended.
///
/// No wall is visited, is a parent, or lies on the path. A search finds the
/// goal exactly if a walk leads to it; the path is then a walk from the start
/// to the goal, and a shortest one where the strategy is optimal. A search
/// that does not find the goal has visited exactly the cells that can be
/// reached from the start.
pub open spec fn verdict(t: Task, s: SearchState) -> bool {
    &&& s.status != Status::Running
    &&& forall|p: Position| #[trigger] visited(t, s).contains(p) ==> traversable(t.grid, p)
    &&& forall|p: Position| #[trigger]
        visited(t, s).contains(p) ==> reachable(t.grid, t.start, p)
    &&& forall|p: Position| #[trigger]
        s.parent.contains_key(p) ==> {
            &&& visited(t, s).contains(p)
            &&& visited(t, s).contains(s.parent[p])
            &&& adjacent(s.parent[p], p)
        }
    &&& (s.status == Status::Found) == reachable(t.grid, t.start, t.goal)
    &&& s.status == Status::Found ==> {
        &&& walk_between(t.grid, found_path(t, s), t.start, t.goal)
        &&& optimal(t.algorithm) ==> shortest_walk(t.grid, found_path(t, s), t.start, t.goal)
    }
    &&& s.status == Status::Exhausted ==> {
        &&& found_path(t, s).len() == 0
        &&& forall|p: Position|
            reachable(t.grid, t.start, p) <==> #[trigger] visited(t, s).contains(p)
    }
}

/// A state that satisfies the invariant and is no longer running gives the verdict.
pub proof fn lemma_verdict(t: Task, s: SearchState)
    requires
        valid_task(t),
        inv(t, s),
        s.status != Status::Running,
    ensures
        verdict(t, s),
{
    lemma_visited(t, s);
    assert forall|p: Position| #[trigger] visited(t, s).contains(p) implies traversable(
        t.grid,
        p,
    ) && reachable(t.grid, t.start, p) by {
        assert(s.cost.contains_key(p));
        lemma_trail(t, s, p, s.cost[p] as nat);
    }
    assert forall|p: Position| #[trigger] s.parent.contains_key(p) implies {
        &&& visited(t, s).contains(p)
        &&& visited(t, s).contains(s.parent[p])
        &&& adjacent(s.parent[p], p)
    } by {
        assert(s.cost.contains_key(p));
        assert(parent_ok(s, p));
        assert(s.cost.contains_key(s.parent[p]));
    }
    if s.status == Status::Found {
        let path = found_path(t, s);
        lemma_trail(t, s, t.goal, s.cost[t.goal] as nat);
        assert(walk_between(t.grid, path, t.start, t.goal));
    } else {
        assert forall|p: Position| reachable(t.grid, t.start, p) implies #[trigger] visited(
            t,
            s,
        ).contains(p) by {
            let w = choose|w: Seq<Position>| walk_between(t.grid, w, t.start, p);
            lemma_walk_visited(t, s, w, w.len() - 1);
        }
        assert(settled(t, s, t.start));
        if reachable(t.grid, t.start, t.goal) {
            assert(visited(t, s).contains(t.goal));
            assert(s.cost.contains_key(t.goal));
            assert(settled(t, s, t.goal));
        }
    }
}

/// A search that has ended stays where it is.
pub proof fn lemma_rest(t: Task, n: nat, m: nat)
    requires
        run(t, n).status != Status::Running,
        n <= m,
    ensures
        run(t, m) == run(t, n),
    decreases m,
{
    if n < m {
        lemma_rest(t, n, (m - 1) as nat);
    }
}

/// A search ends in one state only.
pub proof fn lemma_one_end(t: Task, s1: SearchState, s2: SearchState)
    requires
        ends_in(t, s1),
        ends_in(t, s2),
    ensures
        s1 == s2,
{
    let n1 = choose|n: nat| #[trigger] run(t, n) == s1;
    let n2 = choose|n: nat| #[trigger] run(t, n) == s2;
    if n1 <= n2 {
        lemma_rest(t, n1, n2);
    } else {
        lemma_rest(t, n2, n1);
    }
}

/// The state in which a search ends gives the verdict.
pub proof fn lemma_end_verdict(t: Task, s: SearchState)
    requires
        valid_task(t),
        ends_in(t, s),
    ensures
        verdict(t, s),
{
    let n = choose|n: nat| #[trigger] run(t, n) == s;
    lemma_run(t, n);
    lemma_verdict(t, s);
}

} // verus!
