//! The maze grid: cells, positions, and the walks that lead through open cells.
//!
//! A grid is modelled as a sequence of rows of equal width. Nothing wraps
//! around: a cell on the border has fewer than four neighbours.

use vstd::prelude::*;

verus! {

/// A cell address: row (counted from the top) and column (counted from the left).
#[derive(Clone, Copy, PartialEq, Eq, Structural, Debug, Hash)]
pub struct Position {
    pub row: usize,
    pub col: usize,
}

/// What a cell of the maze holds.
#[derive(Clone, Copy, PartialEq, Eq, Structural, Debug)]
pub enum CellType {
    Wall,
    Path,
}

/// The four moves, in the order in which every search tries them.
#[derive(Clone, Copy, PartialEq, Eq, Structural, Debug)]
pub enum Direction {
    Up,
    Down,
    Left,
    Right,
}

/// Every row is as wide as the first.
pub open spec fn rectangular(g: Seq<Seq<CellType>>) -> bool {
    forall|r: int| 0 <= r < g.len() ==> (#[trigger] g[r]).len() == g[0].len()
}

/// The number of columns; an empty grid has none.
pub open spec fn width(g: Seq<Seq<CellType>>) -> nat {
    if g.len() == 0 {
        0
    } else {
        g[0].len()
    }
}

/// `p` lies within the grid.
pub open spec fn in_bounds(g: Seq<Seq<CellType>>, p: Position) -> bool {
    p.row < g.len() && p.col < width(g)
}

/// A search may stand on `p`: it lies within the grid and is no wall.
pub open spec fn traversable(g: Seq<Seq<CellType>>, p: Position) -> bool {
    in_bounds(g, p) && g[p.row as int][p.col as int] == CellType::Path
}

/// `a` and `b` share an edge.
pub open spec fn adjacent(a: Position, b: Position) -> bool {
    ||| a.row == b.row && (a.col + 1 == b.col || b.col + 1 == a.col)
    ||| a.col == b.col && (a.row + 1 == b.row || b.row + 1 == a.row)
}

/// The cell one move away from `p`, where the coordinates can express it.
pub open spec fn moved(p: Position, d: Direction) -> Option<Position> {
    match d {
        Direction::Up => if p.row > 0 {
            Some(Position { row: (p.row - 1) as usize, col: p.col })
        } else {
            None
        },
        Direction::Down => if p.row < usize::MAX {
            Some(Position { row: (p.row + 1) as usize, col: p.col })
        } else {
            None
        },
        Direction::Left => if p.col > 0 {
            Some(Position { row: p.row, col: (p.col - 1) as usize })
        } else {
            None
        },
        Direction::Right => if p.col < usize::MAX {
            Some(Position { row: p.row, col: (p.col + 1) as usize })
        } else {
            None
        },
    }
}

/// The neighbour of `p` in direction `d`, if it lies within the grid.
pub open spec fn neighbor(g: Seq<Seq<CellType>>, p: Position, d: Direction) -> Option<Position> {
    match moved(p, d) {
        Some(q) => if in_bounds(g, q) {
            Some(q)
        } else {
            None
        },
        None => None,
    }
}

/// The cell that `o` holds, as a sequence of one; or the empty sequence.
pub open spec fn seq_of(o: Option<Position>) -> Seq<Position> {
    match o {
        Some(p) => seq![p],
        None => Seq::empty(),
    }
}

/// The neighbours of `p` within the grid: up, down, left, right, walls included.
pub open spec fn neighbors4(g: Seq<Seq<CellType>>, p: Position) -> Seq<Position> {
    seq_of(neighbor(g, p, Direction::Up)) + seq_of(neighbor(g, p, Direction::Down)) + seq_of(
        neighbor(g, p, Direction::Left),
    ) + seq_of(neighbor(g, p, Direction::Right))
}

/// Cells `i` and `i + 1` of `w` share an edge.
pub open spec fn linked(w: Seq<Position>, i: int) -> bool {
    adjacent(w[i], w[i + 1])
}

/// `w` is a walk: at least one cell, every cell open, each next to the one before.
pub open spec fn is_walk(g: Seq<Seq<CellType>>, w: Seq<Position>) -> bool {
    &&& w.len() >= 1
    &&& forall|i: int| 0 <= i < w.len() ==> traversable(g, #[trigger] w[i])
    &&& forall|i: int| 0 <= i < w.len() - 1 ==> #[trigger] linked(w, i)
}

/// `w` is a walk that starts at `a` and ends at `b`.
pub open spec fn walk_between(g: Seq<Seq<CellType>>, w: Seq<Position>, a: Position, b: Position) -> bool {
    is_walk(g, w) && w[0] == a && w.last() == b
}

/// Some walk leads from `a` to `b`.
pub open spec fn reachable(g: Seq<Seq<CellType>>, a: Position, b: Position) -> bool {
    exists|w: Seq<Position>| walk_between(g, w, a, b)
}

/// A cell next to `p` that lies within the grid is found by one of the four moves.
pub proof fn lemma_adjacent_is_neighbor(g: Seq<Seq<CellType>>, p: Position, q: Position)
    requires
        adjacent(p, q),
        in_bounds(g, q),
    ensures
        neighbor(g, p, Direction::Up) == Some(q) || neighbor(g, p, Direction::Down) == Some(q)
            || neighbor(g, p, Direction::Left) == Some(q) || neighbor(g, p, Direction::Right)
            == Some(q),
{
}

/// What a move finds is next to where it started.
pub proof fn lemma_neighbor_is_adjacent(g: Seq<Seq<CellType>>, p: Position, d: Direction)
    requires
        neighbor(g, p, d) is Some,
    ensures
        adjacent(p, neighbor(g, p, d)->0),
        adjacent(neighbor(g, p, d)->0, p),
        in_bounds(g, neighbor(g, p, d)->0),
{
}

/// A walk stays a walk when a neighbouring open cell is appended.
pub proof fn lemma_walk_push(g: Seq<Seq<CellType>>, w: Seq<Position>, q: Position)
    requires
        is_walk(g, w),
        traversable(g, q),
        adjacent(w.last(), q),
    ensures
        is_walk(g, w.push(q)),
        w.push(q)[0] == w[0],
        w.push(q).last() == q,
{
    let w2 = w.push(q);
    assert forall|i: int| 0 <= i < w2.len() implies traversable(g, #[trigger] w2[i]) by {
        if i < w.len() {
            assert(w2[i] == w[i]);
        }
    }
    assert forall|i: int| 0 <= i < w2.len() - 1 implies #[trigger] linked(w2, i) by {
        if i < w.len() - 1 {
            assert(linked(w, i));
        }
    }
}

/// The place of `p` in a row-major list of the cells of a grid `cols` wide.
pub open spec fn cell_index(cols: nat, p: Position) -> int {
    p.row * cols + p.col
}

/// Within a grid, different cells have different places in a row-major list,
/// and every place lies below the number of cells.
pub proof fn lemma_cell_index(g: Seq<Seq<CellType>>, p: Position, q: Position)
    requires
        in_bounds(g, p),
        in_bounds(g, q),
    ensures
        0 <= cell_index(width(g), p) < g.len() * width(g),
        cell_index(width(g), p) == cell_index(width(g), q) ==> p == q,
{
    let cols = width(g) as int;
    let rows = g.len() as int;
    lemma_index_bound(rows, cols, p.row as int);
    let (a, b) = (p.row as int, q.row as int);
    if a < b {
        assert(a * cols + cols <= b * cols) by (nonlinear_arith)
            requires
                a < b,
                0 <= cols,
        ;
    } else if b < a {
        assert(b * cols + cols <= a * cols) by (nonlinear_arith)
            requires
                b < a,
                0 <= cols,
        ;
    }
}

/// The rectangular grid of the maze. Its shape and cells never change.
pub struct Grid {
    cells: Vec<CellType>,
    rows: usize,
    cols: usize,
}

impl View for Grid {
    type V = Seq<Seq<CellType>>;

    /// The rows of the grid, top to bottom.
    closed spec fn view(&self) -> Seq<Seq<CellType>> {
        Seq::new(
            self.rows as nat,
            |r: int| self.cells@.subrange(r * self.cols, r * self.cols + self.cols),
        )
    }
}

/// Row `r` of a row-major layout lies inside the cell vector.
proof fn lemma_index_bound(rows: int, cols: int, r: int)
    requires
        0 <= r < rows,
        0 <= cols,
    ensures
        0 <= r * cols,
        r * cols + cols <= rows * cols,
{
    assert(r * cols + cols <= rows * cols) by (nonlinear_arith)
        requires
            0 <= r < rows,
            0 <= cols,
    ;
    assert(0 <= r * cols) by (nonlinear_arith)
        requires
            0 <= r,
            0 <= cols,
    ;
}

impl Grid {
    #[verifier::type_invariant]
    closed spec fn stored_well(&self) -> bool {
        &&& self.cells@.len() == self.rows * self.cols
        &&& self.rows == 0 ==> self.cols == 0
    }

    /// What every grid satisfies: equal rows, and a cell count that fits the machine.
    pub open spec fn wf(&self) -> bool {
        &&& rectangular(self@)
        &&& self@.len() * width(self@) <= usize::MAX
        &&& self@.len() <= usize::MAX
        &&& width(self@) <= usize::MAX
    }

    proof fn lemma_view(&self)
        requires
            self.stored_well(),
        ensures
            self.wf(),
            self@.len() == self.rows,
            width(self@) == self.cols,
    {
        let rows = self.rows as int;
        let cols = self.cols as int;
        let g = self@;
        assert(g.len() == rows);
        assert forall|r: int| 0 <= r < rows implies (#[trigger] g[r]).len() == cols by {
            lemma_index_bound(rows, cols, r);
        }
        if rows > 0 {
            assert(g[0].len() == cols);
        }
        assert(width(g) == cols);
        assert(rectangular(g));
        assert(self.cells@.len() == self.cells.len());
        assert(g.len() * width(g) == rows * cols);
        assert(g.len() * width(g) <= usize::MAX);
    }

    /// Builds a grid from rows of equal width.
    ///
    /// Where the rows differ in width, returns the index of the first row
    /// that is not as wide as row 0.
    pub fn from_rows(rows: &Vec<Vec<CellType>>) -> (out: Result<Grid, usize>)
        ensures
            match out {
                Ok(g) => {
                    &&& g.wf()
                    &&& g@.len() == rows@.len()
                    &&& forall|r: int| 0 <= r < rows@.len() ==> #[trigger] g@[r] == rows@[r]@
                    &&& forall|r: int|
                        0 <= r < rows@.len() ==> (#[trigger] rows@[r])@.len() == rows@[0]@.len()
                },
                Err(odd) => {
                    &&& 0 < odd < rows@.len()
                    &&& rows@[odd as int]@.len() != rows@[0]@.len()
                    &&& forall|r: int|
                        0 <= r < odd ==> (#[trigger] rows@[r])@.len() == rows@[0]@.len()
                },
            },
    {
        let n = rows.len();
        let cols = if n == 0 {
            0
        } else {
            rows[0].len()
        };
        let mut cells: Vec<CellType> = Vec::new();
        let mut r: usize = 0;
        while r < n
            invariant
                r <= n,
                n == rows@.len(),
                n > 0 ==> cols == rows@[0]@.len(),
                cells@.len() == r * cols,
                forall|k: int| 0 <= k < r ==> (#[trigger] rows@[k])@.len() == cols,
                forall|k: int|
                    0 <= k < r ==> cells@.subrange(k * cols, k * cols + cols) == (
                    #[trigger] rows@[k])@,
            decreases n - r,
        {
            let row = &rows[r];
            if row.len() != cols {
                return Err(r);
            }
            let ghost before = cells@;
            let mut c: usize = 0;
            while c < cols
                invariant
                    c <= cols,
                    row@.len() == cols,
                    before.len() == r * cols,
                    cells@ == before + row@.take(c as int),
                decreases cols - c,
            {
                cells.push(row[c]);
                c += 1;
                assert(row@.take(c as int) == row@.take(c - 1).push(row@[c - 1]));
            }
            proof {
                assert(row@.take(cols as int) == row@);
                assert((r + 1) * cols == r * cols + cols) by (nonlinear_arith);
                assert forall|k: int| 0 <= k < r + 1 implies cells@.subrange(
                    k * cols,
                    k * cols + cols,
                ) == (#[trigger] rows@[k])@ by {
                    lemma_index_bound(r + 1, cols as int, k);
                    if k < r {
                        lemma_index_bound(r as int, cols as int, k);
                        assert(cells@.subrange(k * cols, k * cols + cols) == before.subrange(
                            k * cols,
                            k * cols + cols,
                        ));
                    } else {
                        assert(cells@.subrange(k * cols, k * cols + cols) == row@);
                    }
                }
            }
            r += 1;
        }
        let g = Grid { cells, rows: n, cols };
        proof {
            g.lemma_view();
            assert forall|k: int| 0 <= k < rows@.len() implies #[trigger] g@[k] == rows@[k]@ by {}
        }
        Ok(g)
    }

    /// The number of rows.
    pub fn rows(&self) -> (n: usize)
        ensures
            n == self@.len(),
            self.wf(),
    {
        proof {
            use_type_invariant(self);
            self.lemma_view();
        }
        self.rows
    }

    /// The number of columns.
    pub fn cols(&self) -> (n: usize)
        ensures
            n == width(self@),
            self.wf(),
    {
        proof {
            use_type_invariant(self);
            self.lemma_view();
        }
        self.cols
    }

    /// The number of cells, walls included.
    pub fn cell_count(&self) -> (n: usize)
        ensures
            n == self@.len() * width(self@),
            self.wf(),
    {
        proof {
            use_type_invariant(self);
            self.lemma_view();
        }
        self.cells.len()
    }

    /// The kind of the cell at `p`, or `None` outside the grid.
    pub fn cell(&self, p: Position) -> (kind: Option<CellType>)
        ensures
            self.wf(),
            in_bounds(self@, p) ==> kind == Some(self@[p.row as int][p.col as int]),
            !in_bounds(self@, p) ==> kind is None,
    {
        proof {
            use_type_invariant(self);
            self.lemma_view();
        }
        if p.row < self.rows && p.col < self.cols {
            proof {
                lemma_index_bound(self.rows as int, self.cols as int, p.row as int);
                let row = self@[p.row as int];
                assert(row == self.cells@.subrange(
                    p.row * self.cols,
                    p.row * self.cols + self.cols,
                ));
                assert(row[p.col as int] == self.cells@[p.row * self.cols + p.col]);
            }
            Some(self.cells[p.row * self.cols + p.col])
        } else {
            None
        }
    }

    /// The place of the cell `p` in a row-major list of the cells.
    pub fn index_of(&self, p: Position) -> (i: usize)
        requires
            in_bounds(self@, p),
        ensures
            i == cell_index(width(self@), p),
            i < self@.len() * width(self@),
            self.wf(),
    {
        proof {
            use_type_invariant(self);
            self.lemma_view();
            lemma_cell_index(self@, p, p);
        }
        p.row * self.cols + p.col
    }

    /// Whether a search may stand on `p`: inside the grid and not a wall.
    pub fn traversable(&self, p: Position) -> (open: bool)
        ensures
            open == traversable(self@, p),
            self.wf(),
    {
        match self.cell(p) {
            Some(CellType::Path) => true,
            _ => false,
        }
    }

    /// The neighbour of `p` in direction `d`, if it lies within the grid.
    pub fn neighbor(&self, p: Position, d: Direction) -> (q: Option<Position>)
        ensures
            q == neighbor(self@, p, d),
            self.wf(),
    {
        let rows = self.rows();
        let cols = self.cols();
        let candidate = match d {
            Direction::Up => if p.row > 0 {
                Some(Position { row: p.row - 1, col: p.col })
            } else {
                None
            },
            Direction::Down => if p.row < usize::MAX {
                Some(Position { row: p.row + 1, col: p.col })
            } else {
                None
            },
            Direction::Left => if p.col > 0 {
                Some(Position { row: p.row, col: p.col - 1 })
            } else {
                None
            },
            Direction::Right => if p.col < usize::MAX {
                Some(Position { row: p.row, col: p.col + 1 })
            } else {
                None
            },
        };
        match candidate {
            Some(q) => if q.row < rows && q.col < cols {
                Some(q)
            } else {
                None
            },
            None => None,
        }
    }

    /// The up to four neighbours of `p` inside the grid, in the order up, down,
    /// left, right. Walls are included: the caller filters.
    pub fn neighbors4(&self, p: Position) -> (out: Vec<Position>)
        ensures
            out@ == neighbors4(self@, p),
            self.wf(),
    {
        let mut out: Vec<Position> = Vec::new();
        if let Some(q) = self.neighbor(p, Direction::Up) {
            out.push(q);
        }
        if let Some(q) = self.neighbor(p, Direction::Down) {
            out.push(q);
        }
        if let Some(q) = self.neighbor(p, Direction::Left) {
            out.push(q);
        }
        if let Some(q) = self.neighbor(p, Direction::Right) {
            out.push(q);
        }
        out
    }
}

} // verus!
