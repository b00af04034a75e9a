//! What holds of every state that a search can reach, and why.

use crate::grid::{
    adjacent,
    is_walk,
    lemma_adjacent_is_neighbor,
    lemma_neighbor_is_adjacent,
    linked,
    neighbor,
    rectangular,
    traversable,
    walk_between,
    CellType,
    Direction,
    Position,
};
use crate::pathfinding::model::{
    goes_before,
    improves,
    initial,
    key_of,
    least_index,
    manhattan,
    optimal,
    pick,
    record,
    relax,
    relaxes,
    run,
    step,
    without,
    Algorithm,
    SearchState,
    Status,
    Task,
    Ticket,
};
use vstd::prelude::*;

verus! {

/// A task that a search accepts: both endpoints are open cells of a rectangular grid.
pub open spec fn valid_task(t: Task) -> bool {
    &&& rectangular(t.grid)
    &&& traversable(t.grid, t.start)
    &&& traversable(t.grid, t.goal)
}

/// `v` has a frontier entry that was filed at the cost now recorded for `v`.
pub open spec fn awaits(t: Task, s: SearchState, v: Position) -> bool {
    exists|i: int|
        0 <= i < s.frontier.len() && (#[trigger] s.frontier[i]).pos == v && s.frontier[i].key
            == key_of(t.algorithm, s.cost[v], v, t.goal)
}

/// The step from `v` to `w` has been accounted for.
pub open spec fn edge_done(t: Task, s: SearchState, v: Position, w: Position) -> bool {
    s.cost.contains_key(w) && (optimal(t.algorithm) ==> s.cost[w] <= s.cost[v] + 1)
}

/// `v` has been expanded and nothing has changed for it since.
pub open spec fn settled(t: Task, s: SearchState, v: Position) -> bool {
    &&& v != t.goal
    &&& forall|w: Position| #[trigger]
        adjacent(v, w) && traversable(t.grid, w) ==> edge_done(t, s, v, w)
}

/// The parent link of `v` leads to a visited neighbour that is cheaper.
pub open spec fn parent_ok(s: SearchState, v: Position) -> bool {
    &&& s.parent.contains_key(v)
    &&& s.cost.contains_key(s.parent[v])
    &&& adjacent(s.parent[v], v)
    &&& s.cost[s.parent[v]] + 1 <= s.cost[v]
}

/// The records of a search are consistent: every visited cell is open, the
/// parent links lead to cheaper cells, and the frontier holds visited cells.
pub open spec fn sound(t: Task, s: SearchState) -> bool {
    &&& s.cost.contains_key(t.start)
    &&& s.cost[t.start] == 0
    &&& !s.parent.contains_key(t.start)
    &&& forall|v: Position| #[trigger]
        s.cost.contains_key(v) ==> traversable(t.grid, v) && s.cost[v] >= 0
    &&& forall|v: Position| #[trigger] s.parent.contains_key(v) ==> s.cost.contains_key(v)
    &&& forall|v: Position|
        s.cost.contains_key(v) && v != t.start ==> #[trigger] parent_ok(s, v)
    &&& forall|i: int|
        0 <= i < s.frontier.len() ==> {
            &&& s.cost.contains_key((#[trigger] s.frontier[i]).pos)
            &&& s.frontier[i].key >= key_of(
                t.algorithm,
                s.cost[s.frontier[i].pos],
                s.frontier[i].pos,
                t.goal,
            )
        }
    &&& forall|k: int| 0 <= k < s.visits.len() ==> s.cost.contains_key(#[trigger] s.visits[k])
    &&& forall|v: Position| #[trigger]
        s.cost.contains_key(v) ==> v == t.start || s.visits.contains(v)
}

/// The frontier of a breadth-first search holds at most two layers, in order.
pub open spec fn layered(t: Task, s: SearchState) -> bool {
    t.algorithm == Algorithm::Bfs ==> {
        &&& forall|i: int, j: int|
            0 <= i <= j < s.frontier.len() ==> (#[trigger] s.frontier[i]).key <= (
            #[trigger] s.frontier[j]).key
        &&& forall|i: int|
            0 <= i < s.frontier.len() ==> (#[trigger] s.frontier[i]).key
                == s.cost[s.frontier[i].pos]
        &&& forall|v: Position, i: int|
            #![trigger s.cost.contains_key(v), s.frontier[i]]
            s.cost.contains_key(v) && 0 <= i < s.frontier.len() ==> s.cost[v]
                <= s.frontier[i].key + 1
    }
}

/// The same while the cell `c` is being expanded.
pub open spec fn layered_mid(t: Task, s: SearchState, c: Position) -> bool {
    t.algorithm == Algorithm::Bfs ==> {
        &&& forall|i: int, j: int|
            0 <= i <= j < s.frontier.len() ==> (#[trigger] s.frontier[i]).key <= (
            #[trigger] s.frontier[j]).key
        &&& forall|i: int|
            0 <= i < s.frontier.len() ==> (#[trigger] s.frontier[i]).key
                == s.cost[s.frontier[i].pos]
        &&& forall|i: int|
            0 <= i < s.frontier.len() ==> s.cost[c] <= (#[trigger] s.frontier[i]).key <= s.cost[c]
                + 1
        &&& forall|v: Position| #[trigger] s.cost.contains_key(v) ==> s.cost[v] <= s.cost[c] + 1
    }
}

/// No walk from the start to the goal has fewer steps than the cost recorded for the goal.
pub open spec fn least(t: Task, s: SearchState) -> bool {
    forall|w: Seq<Position>| #[trigger]
        walk_between(t.grid, w, t.start, t.goal) ==> s.cost[t.goal] <= w.len() - 1
}

/// What holds between two steps.
pub open spec fn inv(t: Task, s: SearchState) -> bool {
    &&& sound(t, s)
    &&& layered(t, s)
    &&& s.status == Status::Running ==> forall|v: Position| #[trigger]
        s.cost.contains_key(v) ==> awaits(t, s, v) || settled(t, s, v)
    &&& s.status == Status::Found ==> s.cost.contains_key(t.goal) && (optimal(t.algorithm)
        ==> least(t, s))
    &&& s.status == Status::Exhausted ==> forall|v: Position| #[trigger]
        s.cost.contains_key(v) ==> settled(t, s, v)
}

/// The place of a move in the order in which the moves are tried.
pub open spec fn dir_index(d: Direction) -> int {
    match d {
        Direction::Up => 0,
        Direction::Down => 1,
        Direction::Left => 2,
        Direction::Right => 3,
    }
}

/// The move `d` from `c` has been tried.
pub open spec fn move_done(t: Task, s: SearchState, c: Position, d: Direction) -> bool {
    match neighbor(t.grid, c, d) {
        Some(w) => traversable(t.grid, w) ==> edge_done(t, s, c, w),
        None => true,
    }
}

/// What holds all the while `c` is being expanded.
pub open spec fn mid_base(t: Task, s: SearchState, c: Position) -> bool {
    &&& s.status == Status::Running
    &&& sound(t, s)
    &&& layered_mid(t, s, c)
    &&& s.cost.contains_key(c)
    &&& c != t.goal
    &&& forall|v: Position| #[trigger]
        s.cost.contains_key(v) && v != c ==> awaits(t, s, v) || settled(t, s, v)
}

/// What holds while `c` is being expanded and its first `k` moves have been tried.
pub open spec fn inv_mid(t: Task, s: SearchState, c: Position, k: int) -> bool {
    &&& mid_base(t, s, c)
    &&& forall|d: Direction| dir_index(d) < k ==> #[trigger] move_done(t, s, c, d)
}

/// A search starts in a state where the invariant holds.
pub proof fn lemma_initial(t: Task)
    requires
        valid_task(t),
    ensures
        inv(t, initial(t)),
{
    let s = initial(t);
    assert(s.frontier[0].pos == t.start);
    assert forall|v: Position| #[trigger] s.cost.contains_key(v) implies awaits(t, s, v)
        || settled(t, s, v) by {
        assert(v == t.start);
        assert(s.frontier[0].key == key_of(t.algorithm, s.cost[v], v, t.goal));
    }
}

/// A key never falls when the cost rises.
pub proof fn lemma_key_monotone(a: Algorithm, c1: int, c2: int, p: Position, goal: Position)
    requires
        c1 <= c2,
    ensures
        key_of(a, c1, p, goal) <= key_of(a, c2, p, goal),
{
}

/// The entry that a priority frontier gives out has the least key.
pub proof fn lemma_least_index(f: Seq<Ticket>)
    requires
        f.len() > 0,
    ensures
        0 <= least_index(f) < f.len(),
        forall|i: int| 0 <= i < f.len() ==> f[least_index(f)].key <= (#[trigger] f[i]).key,
        forall|i: int| 0 <= i < f.len() ==> !goes_before(#[trigger] f[i], f[least_index(f)]),
    decreases f.len(),
{
    if f.len() > 1 {
        let front = f.drop_last();
        lemma_least_index(front);
        let best = least_index(front);
        assert forall|i: int| 0 <= i < f.len() implies f[least_index(f)].key <= (
        #[trigger] f[i]).key && !goes_before(f[i], f[least_index(f)]) by {
            if i < f.len() - 1 {
                assert(front[i] == f[i]);
            }
        }
    }
}

/// The entry that any optimal strategy takes has the least key of the frontier.
pub proof fn lemma_pick(t: Task, s: SearchState)
    requires
        inv(t, s),
        s.frontier.len() > 0,
    ensures
        0 <= pick(t.algorithm, s.frontier) < s.frontier.len(),
        optimal(t.algorithm) ==> forall|i: int|
            0 <= i < s.frontier.len() ==> s.frontier[pick(t.algorithm, s.frontier)].key <= (
            #[trigger] s.frontier[i]).key,
{
    lemma_least_index(s.frontier);
}

/// Removing a frontier entry of another cell leaves `v` waiting.
proof fn lemma_awaits_without(t: Task, s: SearchState, i0: int, v: Position)
    requires
        0 <= i0 < s.frontier.len(),
        s.frontier[i0].pos != v,
        awaits(t, s, v),
    ensures
        awaits(t, without(s, i0), v),
{
    let i = choose|i: int|
        0 <= i < s.frontier.len() && (#[trigger] s.frontier[i]).pos == v && s.frontier[i].key
            == key_of(t.algorithm, s.cost[v], v, t.goal);
    let s2 = without(s, i0);
    let j = if i < i0 {
        i
    } else {
        i - 1
    };
    assert(s2.frontier[j] == s.frontier[i]);
}

/// Removing a frontier entry keeps the records consistent.
proof fn lemma_sound_without(t: Task, s: SearchState, i0: int)
    requires
        0 <= i0 < s.frontier.len(),
        sound(t, s),
    ensures
        sound(t, without(s, i0)),
{
    let s2 = without(s, i0);
    assert forall|v: Position| s2.cost.contains_key(v) && v != t.start implies #[trigger] parent_ok(
        s2,
        v,
    ) by {
        assert(parent_ok(s, v));
    }
    assert forall|i: int| 0 <= i < s2.frontier.len() implies {
        &&& s2.cost.contains_key((#[trigger] s2.frontier[i]).pos)
        &&& s2.frontier[i].key >= key_of(
            t.algorithm,
            s2.cost[s2.frontier[i].pos],
            s2.frontier[i].pos,
            t.goal,
        )
    } by {
        let j = if i < i0 {
            i
        } else {
            i + 1
        };
        assert(s2.frontier[i] == s.frontier[j]);
    }
}

/// A search whose frontier is empty ends with every visited cell settled.
pub proof fn lemma_exhaust(t: Task, s: SearchState)
    requires
        inv(t, s),
        s.status == Status::Running,
        s.frontier.len() == 0,
    ensures
        inv(t, step(t, s)),
{
    let s2 = step(t, s);
    assert forall|v: Position| s2.cost.contains_key(v) && v != t.start implies #[trigger] parent_ok(
        s2,
        v,
    ) by {
        assert(parent_ok(s, v));
    }
    assert forall|v: Position| #[trigger] s2.cost.contains_key(v) implies settled(t, s2, v) by {
        assert(s.cost.contains_key(v));
        assert(!awaits(t, s, v));
        assert(settled(t, s, v));
    }
}

/// Taking an entry from the frontier starts the expansion of its cell.
pub proof fn lemma_pop(t: Task, s: SearchState)
    requires
        inv(t, s),
        s.status == Status::Running,
        s.frontier.len() > 0,
        s.frontier[pick(t.algorithm, s.frontier)].pos != t.goal,
    ensures
        inv_mid(
            t,
            without(s, pick(t.algorithm, s.frontier)),
            s.frontier[pick(t.algorithm, s.frontier)].pos,
            0,
        ),
{
    lemma_pick(t, s);
    let i0 = pick(t.algorithm, s.frontier);
    let c = s.frontier[i0].pos;
    let s2 = without(s, i0);
    lemma_sound_without(t, s, i0);
    assert forall|v: Position| #[trigger]
        s2.cost.contains_key(v) && v != c implies awaits(t, s2, v) || settled(t, s2, v) by {
        assert(s.cost.contains_key(v));
        if awaits(t, s, v) {
            lemma_awaits_without(t, s, i0, v);
        } else {
            assert(settled(t, s, v));
        }
    }
    if t.algorithm == Algorithm::Bfs {
        assert(i0 == 0);
        assert forall|i: int| 0 <= i < s2.frontier.len() implies (#[trigger] s2.frontier[i])
            == s.frontier[i + 1] by {}
        assert(s.frontier[0].key == s.cost[c]);
        assert forall|i: int| 0 <= i < s2.frontier.len() implies s2.cost[c] <= (
        #[trigger] s2.frontier[i]).key <= s2.cost[c] + 1 by {
            assert(s2.frontier[i] == s.frontier[i + 1]);
            let p = s.frontier[i + 1].pos;
            assert(s.cost.contains_key(p));
            assert(s.frontier[0].key <= s.frontier[i + 1].key);
            assert(s.cost[p] <= s.frontier[0].key + 1);
        }
        assert forall|v: Position| #[trigger] s2.cost.contains_key(v) implies s2.cost[v]
            <= s2.cost[c] + 1 by {
            assert(s.cost.contains_key(v));
            assert(s.cost[v] <= s.frontier[0].key + 1);
        }
        assert forall|i: int, j: int| 0 <= i <= j < s2.frontier.len() implies (
        #[trigger] s2.frontier[i]).key <= (#[trigger] s2.frontier[j]).key by {
            assert(s2.frontier[i] == s.frontier[i + 1]);
            assert(s2.frontier[j] == s.frontier[j + 1]);
        }
        assert forall|i: int| 0 <= i < s2.frontier.len() implies (#[trigger] s2.frontier[i]).key
            == s2.cost[s2.frontier[i].pos] by {
            assert(s2.frontier[i] == s.frontier[i + 1]);
        }
    }
}

/// Recording a cell reached from `c` keeps what holds during the expansion of `c`.
proof fn lemma_record(t: Task, s: SearchState, c: Position, n: Position)
    requires
        valid_task(t),
        mid_base(t, s, c),
        adjacent(c, n),
        traversable(t.grid, n),
        improves(t.algorithm, s.cost, c, n),
    ensures
        mid_base(t, record(t, s, c, n), c),
        edge_done(t, record(t, s, c, n), c, n),
        forall|w: Position|
            edge_done(t, s, c, w) ==> #[trigger] edge_done(t, record(t, s, c, n), c, w),
{
    let s2 = record(t, s, c, n);
    let g = s.cost[c] + 1;
    let len = s.frontier.len() as int;
    assert(n != c);
    assert(s.cost[c] >= 0);
    assert(n != t.start);
    assert(s.cost.contains_key(n) ==> g <= s.cost[n]) by {
        if s.cost.contains_key(n) {
            assert(relaxes(t.algorithm));
        }
    }
    assert forall|v: Position| #[trigger] s2.cost.contains_key(v) implies s2.cost[v] <= (if v
        == n {
        g
    } else {
        s.cost[v]
    }) && (v != n ==> s.cost.contains_key(v)) by {}
    assert forall|v: Position| s2.cost.contains_key(v) && v != t.start implies #[trigger] parent_ok(
        s2,
        v,
    ) by {
        if v != n {
            assert(s.cost.contains_key(v));
            assert(parent_ok(s, v));
            let u = s.parent[v];
            assert(s.cost.contains_key(u));
        }
    }
    assert forall|i: int| 0 <= i < s2.frontier.len() implies {
        &&& s2.cost.contains_key((#[trigger] s2.frontier[i]).pos)
        &&& s2.frontier[i].key >= key_of(
            t.algorithm,
            s2.cost[s2.frontier[i].pos],
            s2.frontier[i].pos,
            t.goal,
        )
    } by {
        if i < len {
            assert(s2.frontier[i] == s.frontier[i]);
            let p = s.frontier[i].pos;
            assert(s.cost.contains_key(p));
            lemma_key_monotone(t.algorithm, s2.cost[p], s.cost[p], p, t.goal);
        }
    }
    assert forall|k: int| 0 <= k < s2.visits.len() implies s2.cost.contains_key(
        #[trigger] s2.visits[k],
    ) by {
        if k < s.visits.len() {
            assert(s2.visits[k] == s.visits[k]);
        }
    }
    assert forall|v: Position| #[trigger] s2.cost.contains_key(v) implies v == t.start
        || s2.visits.contains(v) by {
        if v == n {
            assert(s2.visits[s.visits.len() as int] == n);
        } else {
            assert(s.cost.contains_key(v));
            if v != t.start {
                let k = choose|k: int| 0 <= k < s.visits.len() && s.visits[k] == v;
                assert(s2.visits[k] == v);
            }
        }
    }
    assert(sound(t, s2));
    assert forall|v: Position| #[trigger]
        s2.cost.contains_key(v) && v != c implies awaits(t, s2, v) || settled(t, s2, v) by {
        if v == n {
            assert(s2.frontier[len].pos == n);
        } else {
            assert(s.cost.contains_key(v));
            if awaits(t, s, v) {
                let i = choose|i: int|
                    0 <= i < s.frontier.len() && (#[trigger] s.frontier[i]).pos == v
                        && s.frontier[i].key == key_of(t.algorithm, s.cost[v], v, t.goal);
                assert(s2.frontier[i] == s.frontier[i]);
            } else {
                assert(settled(t, s, v));
                assert forall|w: Position| #[trigger]
                    adjacent(v, w) && traversable(t.grid, w) implies edge_done(t, s2, v, w) by {
                    assert(edge_done(t, s, v, w));
                }
            }
        }
    }
    if t.algorithm == Algorithm::Bfs {
        assert(!s.cost.contains_key(n));
        assert forall|i: int| 0 <= i < s2.frontier.len() implies (#[trigger] s2.frontier[i]).key
            == s2.cost[s2.frontier[i].pos] && s2.cost[c] <= s2.frontier[i].key <= s2.cost[c]
            + 1 by {
            if i < len {
                assert(s2.frontier[i] == s.frontier[i]);
                assert(s.cost.contains_key(s.frontier[i].pos));
            }
        }
        assert forall|i: int, j: int| 0 <= i <= j < s2.frontier.len() implies (
        #[trigger] s2.frontier[i]).key <= (#[trigger] s2.frontier[j]).key by {
            if j < len {
                assert(s2.frontier[i] == s.frontier[i]);
                assert(s2.frontier[j] == s.frontier[j]);
            }
        }
    }
}

/// Trying one move keeps what holds during an expansion, and the move is then done.
pub proof fn lemma_relax(t: Task, s: SearchState, c: Position, d: Direction)
    requires
        valid_task(t),
        inv_mid(t, s, c, dir_index(d)),
    ensures
        inv_mid(t, relax(t, s, c, d), c, dir_index(d) + 1),
{
    let k = dir_index(d);
    let s2 = relax(t, s, c, d);
    match neighbor(t.grid, c, d) {
        Some(n) => {
            lemma_neighbor_is_adjacent(t.grid, c, d);
            if traversable(t.grid, n) && improves(t.algorithm, s.cost, c, n) {
                lemma_record(t, s, c, n);
            } else if traversable(t.grid, n) {
                assert(s.cost.contains_key(n));
                assert(edge_done(t, s, c, n));
            }
        },
        None => {},
    }
    assert forall|d2: Direction| dir_index(d2) < k + 1 implies #[trigger] move_done(
        t,
        s2,
        c,
        d2,
    ) by {
        if dir_index(d2) < k {
            assert(move_done(t, s, c, d2));
        } else {
            assert(d2 == d);
        }
    }
}

/// Once all four moves have been tried, the cell is settled.
pub proof fn lemma_finish(t: Task, s: SearchState, c: Position)
    requires
        valid_task(t),
        inv_mid(t, s, c, 4),
    ensures
        inv(t, s),
{
    assert forall|w: Position| #[trigger]
        adjacent(c, w) && traversable(t.grid, w) implies edge_done(t, s, c, w) by {
        lemma_adjacent_is_neighbor(t.grid, c, w);
        assert(move_done(t, s, c, Direction::Up));
        assert(move_done(t, s, c, Direction::Down));
        assert(move_done(t, s, c, Direction::Left));
        assert(move_done(t, s, c, Direction::Right));
    }
    assert(settled(t, s, c));
}

/// Along a walk that ends at the goal, the Manhattan distance to the goal
/// is at most the number of steps that remain.
pub proof fn lemma_estimate(g: Seq<Seq<CellType>>, w: Seq<Position>, goal: Position, m: int)
    requires
        is_walk(g, w),
        w.last() == goal,
        0 <= m < w.len(),
    ensures
        manhattan(w[m], goal) <= w.len() - 1 - m,
    decreases w.len() - m,
{
    if m < w.len() - 1 {
        lemma_estimate(g, w, goal, m + 1);
        assert(linked(w, m));
    }
}

/// Scans a walk from the start: either every cell up to index `j` is visited
/// at a cost of at most its index, or an earlier such cell still awaits expansion.
proof fn lemma_scan(t: Task, s: SearchState, w: Seq<Position>, j: int) -> (m: int)
    requires
        inv(t, s),
        s.status == Status::Running,
        optimal(t.algorithm),
        is_walk(t.grid, w),
        w[0] == t.start,
        0 <= j < w.len(),
    ensures
        0 <= m <= j,
        s.cost.contains_key(w[m]),
        s.cost[w[m]] <= m,
        m < j ==> awaits(t, s, w[m]),
    decreases j,
{
    if j == 0 {
        0
    } else {
        let m = lemma_scan(t, s, w, j - 1);
        if m < j - 1 {
            m
        } else if awaits(t, s, w[m]) {
            m
        } else {
            assert(settled(t, s, w[m]));
            assert(linked(w, m));
            assert(traversable(t.grid, w[j]));
            assert(edge_done(t, s, w[m], w[j]));
            j
        }
    }
}

/// Taking the oldest entry from a layered frontier leaves it layered.
proof fn lemma_layered_without(t: Task, s: SearchState)
    requires
        t.algorithm == Algorithm::Bfs,
        layered(t, s),
        s.frontier.len() > 0,
    ensures
        layered(t, without(s, 0)),
{
    let s2 = without(s, 0);
    assert forall|i: int| 0 <= i < s2.frontier.len() implies (#[trigger] s2.frontier[i])
        == s.frontier[i + 1] by {}
    assert forall|i: int, j: int| 0 <= i <= j < s2.frontier.len() implies (
    #[trigger] s2.frontier[i]).key <= (#[trigger] s2.frontier[j]).key by {
        assert(s2.frontier[i] == s.frontier[i + 1]);
        assert(s2.frontier[j] == s.frontier[j + 1]);
    }
    assert forall|i: int| 0 <= i < s2.frontier.len() implies (#[trigger] s2.frontier[i]).key
        == s2.cost[s2.frontier[i].pos] by {
        assert(s2.frontier[i] == s.frontier[i + 1]);
    }
    assert forall|v: Position, i: int|
        #![trigger s2.cost.contains_key(v), s2.frontier[i]]
        s2.cost.contains_key(v) && 0 <= i < s2.frontier.len() implies s2.cost[v]
            <= s2.frontier[i].key + 1 by {
        assert(s2.frontier[i] == s.frontier[i + 1]);
        assert(s.cost.contains_key(v));
    }
}

/// When an optimal strategy is about to take the goal from the frontier, the
/// cost recorded for the goal is at most the number of steps of `w`.
proof fn lemma_walk_bound(t: Task, s: SearchState, w: Seq<Position>)
    requires
        valid_task(t),
        inv(t, s),
        s.status == Status::Running,
        s.frontier.len() > 0,
        s.frontier[pick(t.algorithm, s.frontier)].pos == t.goal,
        optimal(t.algorithm),
        walk_between(t.grid, w, t.start, t.goal),
    ensures
        s.cost[t.goal] <= w.len() - 1,
{
    lemma_pick(t, s);
    let i0 = pick(t.algorithm, s.frontier);
    let e = s.frontier[i0];
    assert(manhattan(t.goal, t.goal) == 0);
    assert(e.key >= key_of(t.algorithm, s.cost[t.goal], t.goal, t.goal));
    assert(e.key >= s.cost[t.goal]);
    let k = w.len() - 1;
    let m = lemma_scan(t, s, w, k);
    if m < k {
        let i = choose|i: int|
            0 <= i < s.frontier.len() && (#[trigger] s.frontier[i]).pos == w[m]
                && s.frontier[i].key == key_of(t.algorithm, s.cost[w[m]], w[m], t.goal);
        lemma_estimate(t.grid, w, t.goal, m);
        lemma_key_monotone(t.algorithm, s.cost[w[m]], m, w[m], t.goal);
        assert(e.key <= s.frontier[i].key);
        assert(key_of(t.algorithm, m, w[m], t.goal) <= k);
    }
}

/// When the goal is taken from the frontier, the search ends; where the
/// strategy is optimal, no walk to the goal is shorter than the cost recorded for it.
pub proof fn lemma_found(t: Task, s: SearchState)
    requires
        valid_task(t),
        inv(t, s),
        s.status == Status::Running,
        s.frontier.len() > 0,
        s.frontier[pick(t.algorithm, s.frontier)].pos == t.goal,
    ensures
        inv(t, step(t, s)),
{
    lemma_pick(t, s);
    let i0 = pick(t.algorithm, s.frontier);
    let s2 = step(t, s);
    lemma_sound_without(t, s, i0);
    assert(s2.frontier == without(s, i0).frontier);
    assert(s2.cost == s.cost);
    assert(s2.parent == s.parent);
    assert(s2.visits == s.visits);
    assert forall|v: Position| s2.cost.contains_key(v) && v != t.start implies #[trigger] parent_ok(
        s2,
        v,
    ) by {
        assert(parent_ok(without(s, i0), v));
    }
    assert(sound(t, s2));
    if t.algorithm == Algorithm::Bfs {
        lemma_layered_without(t, s);
        assert(layered(t, s2));
    }
    if optimal(t.algorithm) {
        assert forall|w: Seq<Position>| #[trigger]
            walk_between(t.grid, w, t.start, t.goal) implies s2.cost[t.goal] <= w.len() - 1 by {
            lemma_walk_bound(t, s, w);
        }
    }
}

/// Every step keeps the invariant.
pub proof fn lemma_step(t: Task, s: SearchState)
    requires
        valid_task(t),
        inv(t, s),
    ensures
        inv(t, step(t, s)),
{
    if s.status == Status::Running {
        if s.frontier.len() == 0 {
            lemma_exhaust(t, s);
        } else {
            let i = pick(t.algorithm, s.frontier);
            let c = s.frontier[i].pos;
            if c == t.goal {
                lemma_found(t, s);
            } else {
                lemma_pop(t, s);
                let s0 = without(s, i);
                lemma_relax(t, s0, c, Direction::Up);
                let s1 = relax(t, s0, c, Direction::Up);
                lemma_relax(t, s1, c, Direction::Down);
                let s2 = relax(t, s1, c, Direction::Down);
                lemma_relax(t, s2, c, Direction::Left);
                let s3 = relax(t, s2, c, Direction::Left);
                lemma_relax(t, s3, c, Direction::Right);
                let s4 = relax(t, s3, c, Direction::Right);
                lemma_finish(t, s4, c);
            }
        }
    }
}

/// The invariant holds after any number of steps.
pub proof fn lemma_run(t: Task, n: nat)
    requires
        valid_task(t),
    ensures
        inv(t, run(t, n)),
    decreases n,
{
    if n == 0 {
        lemma_initial(t);
    } else {
        lemma_run(t, (n - 1) as nat);
        lemma_step(t, run(t, (n - 1) as nat));
    }
}

} // verus!
