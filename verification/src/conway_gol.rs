//! Conway's Game of Life on a board whose edges wrap around.
//!
//! Besides the cells the universe keeps a set of changed cells, so that a
//! renderer can repaint only those. The set only grows, until `clear`.

use vstd::prelude::*;

verus! {

/// A cell of the board.
#[derive(Clone, Copy, PartialEq, Eq, Structural, Debug)]
pub enum Cell {
    Dead,
    Alive,
}

/// Why a set of patterns could not be loaded.
#[derive(Clone, Copy, PartialEq, Eq, Structural, Debug)]
pub enum PatternError {
    /// The list of positions ends with a row that has no column.
    PlacementOutOfBounds,
}

/// 1 for a live cell, 0 for a dead one.
pub open spec fn live(c: Cell) -> int {
    if c == Cell::Alive {
        1
    } else {
        0
    }
}

/// What the neighbour that lies `dr` rows and `dc` columns further (wrapping
/// around) adds to the count; the pair (0, 0) stands for the cell itself
/// and adds nothing.
pub open spec fn share(
    cells: Seq<Cell>,
    width: int,
    height: int,
    row: int,
    col: int,
    dr: int,
    dc: int,
) -> int {
    if dr == 0 && dc == 0 {
        0
    } else {
        live(cells[((row + dr) % height) * width + (col + dc) % width])
    }
}

/// What the three neighbours in the row `dr` further add to the count.
pub open spec fn row_share(cells: Seq<Cell>, width: int, height: int, row: int, col: int, dr: int) -> int {
    share(cells, width, height, row, col, dr, width - 1) + share(
        cells,
        width,
        height,
        row,
        col,
        dr,
        0,
    ) + share(cells, width, height, row, col, dr, 1)
}

/// The number of live cells around (`row`, `col`): the row above, the cell's
/// own row and the row below, each wrapping around the edges.
pub open spec fn live_neighbors(cells: Seq<Cell>, width: int, height: int, row: int, col: int) -> int {
    row_share(cells, width, height, row, col, height - 1) + row_share(
        cells,
        width,
        height,
        row,
        col,
        0,
    ) + row_share(cells, width, height, row, col, 1)
}

/// The rule of the game: a live cell stays alive with two or three live
/// neighbours, a dead cell comes alive with exactly three.
pub open spec fn next_state(cell: Cell, neighbors: int) -> Cell {
    match cell {
        Cell::Alive => if neighbors == 2 || neighbors == 3 {
            Cell::Alive
        } else {
            Cell::Dead
        },
        Cell::Dead => if neighbors == 3 {
            Cell::Alive
        } else {
            Cell::Dead
        },
    }
}

/// The cell at index `j` lies in the three-by-three block around (`row`, `col`).
pub open spec fn near(width: int, height: int, row: int, col: int, j: int) -> bool {
    exists|a: int, b: int|
        0 <= a < 3 && 0 <= b < 3 && j == #[trigger] block_index(width, height, row, col, a, b)
}

/// The step to row or column `k` of a block: one back (around the ring), none, one on.
pub open spec fn offset(size: int, k: int) -> int {
    if k == 0 {
        size - 1
    } else if k == 1 {
        0
    } else {
        1
    }
}

/// The index of the cell in row `a` and column `b` of the block around (`row`, `col`).
pub open spec fn block_index(width: int, height: int, row: int, col: int, a: int, b: int) -> int {
    ((row + offset(height, a)) % height) * width + (col + offset(width, b)) % width
}

/// The cell at index `i` of the next generation.
pub open spec fn evolved(cells: Seq<Cell>, width: int, height: int, i: int) -> Cell {
    next_state(cells[i], live_neighbors(cells, width, height, i / width, i % width))
}

/// The index `j` is changed after a generation if it was changed before or
/// lies around a cell whose state the generation changed.
pub open spec fn stirred(
    cells: Seq<Cell>,
    changed: Seq<bool>,
    width: int,
    height: int,
    upto: int,
    j: int,
) -> bool {
    changed[j] || exists|i: int|
        0 <= i < upto && #[trigger] evolved(cells, width, height, i) != cells[i] && near(
            width,
            height,
            i / width,
            i % width,
            j,
        )
}

/// The `m`-th cell of the pattern, put down at the `k`-th position, lands on (`r`, `c`).
/// A position outside the board puts nothing down.
pub open spec fn lands_on(
    pattern: Seq<usize>,
    positions: Seq<usize>,
    width: int,
    height: int,
    k: int,
    m: int,
    r: int,
    c: int,
) -> bool {
    &&& positions[2 * k] < height
    &&& positions[2 * k + 1] < width
    &&& positions[2 * k] + pattern[2 * m] == r
    &&& positions[2 * k + 1] + pattern[2 * m + 1] == c
}

/// Some cell of the pattern lands on (`r`, `c`) when the pattern is put down
/// at the first `k_done` positions, and its first `m_done` cells at the next.
pub open spec fn stamped(
    pattern: Seq<usize>,
    positions: Seq<usize>,
    width: int,
    height: int,
    k_done: int,
    m_done: int,
    r: int,
    c: int,
) -> bool {
    exists|k: int, m: int|
        0 <= m < pattern.len() / 2 && (0 <= k < k_done || (k == k_done && m < m_done))
            && #[trigger] lands_on(pattern, positions, width, height, k, m, r, c)
}

/// A live cell if `b` holds, else a dead one.
pub open spec fn alive_if(b: bool) -> Cell {
    if b {
        Cell::Alive
    } else {
        Cell::Dead
    }
}

/// The board: `height` rows of `width` cells.
pub struct Universe {
    width: usize,
    height: usize,
    cells: Vec<Cell>,
    next_cells: Vec<Cell>,
    changed_cells: Vec<bool>,
}

proof fn lemma_cell_index(width: int, height: int, row: int, col: int)
    requires
        0 <= row < height,
        0 <= col < width,
    ensures
        0 <= row * width + col < width * height,
        (row * width + col) / width == row,
        (row * width + col) % width == col,
{
    assert(0 <= row * width && row * width + width <= width * height) by (nonlinear_arith)
        requires
            0 <= row < height,
            0 < width,
    ;
    vstd::arithmetic::div_mod::lemma_fundamental_div_mod_converse(
        row * width + col,
        width,
        row,
        col,
    );
}

proof fn lemma_index_split(width: int, height: int, i: int)
    requires
        0 <= i < width * height,
        0 < width,
    ensures
        0 <= i / width < height,
        0 <= i % width < width,
        (i / width) * width + i % width == i,
{
    vstd::arithmetic::div_mod::lemma_fundamental_div_mod(i, width);
    vstd::arithmetic::div_mod::lemma_mod_bound(i, width);
    let q = i / width;
    assert(q * width == width * q) by (nonlinear_arith);
    assert(0 <= q < height) by (nonlinear_arith)
        requires
            0 <= i < width * height,
            0 < width,
            i == width * q + i % width,
            0 <= i % width < width,
    ;
}

/// `pos` moved on by `delta` on a ring of `size` places.
fn wrapped(pos: usize, delta: usize, size: usize) -> (r: usize)
    requires
        pos < size,
        delta < size || delta <= 1,
    ensures
        r == (pos + delta) % (size as int),
        r < size,
{
    if delta >= size {
        proof {
            assert(size == 1 && pos == 0 && delta == 1);
        }
        0
    } else if delta >= size - pos {
        proof {
            vstd::arithmetic::div_mod::lemma_fundamental_div_mod_converse(
                pos + delta,
                size as int,
                1,
                pos + delta - size,
            );
        }
        delta - (size - pos)
    } else {
        proof {
            vstd::arithmetic::div_mod::lemma_small_mod((pos + delta) as nat, size as nat);
        }
        pos + delta
    }
}

impl Universe {
    /// The cells, row by row.
    pub closed spec fn view_cells(&self) -> Seq<Cell> {
        self.cells@
    }

    /// For every cell, whether it counts as changed.
    pub closed spec fn view_changed(&self) -> Seq<bool> {
        self.changed_cells@
    }

    /// The number of columns.
    pub closed spec fn spec_width(&self) -> usize {
        self.width
    }

    /// The number of rows.
    pub closed spec fn spec_height(&self) -> usize {
        self.height
    }

    /// The tables have one entry for every cell of the board.
    pub closed spec fn wf(&self) -> bool {
        &&& self.cells@.len() == self.width * self.height
        &&& self.next_cells@.len() == self.cells@.len()
        &&& self.changed_cells@.len() == self.cells@.len()
    }

    /// A board of `width` by `height` cells. Cell `i`, counted row by row, is
    /// alive if `alive` holds `true` at index `i`. Every cell counts as changed.
    pub fn new(width: usize, height: usize, alive: &Vec<bool>) -> (u: Universe)
        requires
            width * height <= usize::MAX,
        ensures
            u.wf(),
            u.width() == width,
            u.height() == height,
            forall|i: int|
                0 <= i < width * height ==> (#[trigger] u.view_cells()[i]) == if i < alive@.len()
                    && alive@[i] {
                    Cell::Alive
                } else {
                    Cell::Dead
                },
            forall|i: int| 0 <= i < width * height ==> #[trigger] u.view_changed()[i],
    {
        let size = width * height;
        let mut cells: Vec<Cell> = Vec::new();
        let mut next_cells: Vec<Cell> = Vec::new();
        let mut changed_cells: Vec<bool> = Vec::new();
        let mut i: usize = 0;
        while i < size
            invariant
                i <= size,
                cells@.len() == i,
                next_cells@.len() == i,
                changed_cells@.len() == i,
                forall|k: int|
                    0 <= k < i ==> (#[trigger] cells@[k]) == if k < alive@.len() && alive@[k] {
                        Cell::Alive
                    } else {
                        Cell::Dead
                    },
                forall|k: int| 0 <= k < i ==> #[trigger] changed_cells@[k],
            decreases size - i,
        {
            let cell = if i < alive.len() && alive[i] {
                Cell::Alive
            } else {
                Cell::Dead
            };
            cells.push(cell);
            next_cells.push(Cell::Dead);
            changed_cells.push(true);
            i += 1;
        }
        Universe { width, height, cells, next_cells, changed_cells }
    }

    /// The index of the cell (`row`, `column`) in the row-by-row list of cells.
    pub fn get_index(&self, row: usize, column: usize) -> (i: usize)
        requires
            self.wf(),
            row < self.height(),
            column < self.width(),
        ensures
            i == row * self.width() + column,
            i < self.width() * self.height(),
            i / self.width() == row,
            i % self.width() == column,
    {
        proof {
            lemma_cell_index(self.width as int, self.height as int, row as int, column as int);
            assert(self.cells@.len() == self.cells.len());
            assert(0 <= row * self.width) by (nonlinear_arith);
        }
        (row * self.width) + column
    }

    fn count_at(&self, row: usize, column: usize, delta_row: usize, delta_col: usize) -> (n: u8)
        requires
            self.wf(),
            row < self.height(),
            column < self.width(),
            delta_row < self.height() || delta_row <= 1,
            delta_col < self.width() || delta_col <= 1,
        ensures
            n == share(
                self.view_cells(),
                self.width() as int,
                self.height() as int,
                row as int,
                column as int,
                delta_row as int,
                delta_col as int,
            ),
            n <= 1,
    {
        if delta_row == 0 && delta_col == 0 {
            return 0;
        }
        let neighbor_row = wrapped(row, delta_row, self.height);
        let neighbor_col = wrapped(column, delta_col, self.width);
        let idx = self.get_index(neighbor_row, neighbor_col);
        match self.cells[idx] {
            Cell::Alive => 1,
            Cell::Dead => 0,
        }
    }

    fn count_row(&self, row: usize, column: usize, delta_row: usize) -> (n: u8)
        requires
            self.wf(),
            row < self.height(),
            column < self.width(),
            delta_row < self.height() || delta_row <= 1,
        ensures
            n == row_share(
                self.view_cells(),
                self.width() as int,
                self.height() as int,
                row as int,
                column as int,
                delta_row as int,
            ),
            n <= 3,
    {
        self.count_at(row, column, delta_row, self.width - 1) + self.count_at(
            row,
            column,
            delta_row,
            0,
        ) + self.count_at(row, column, delta_row, 1)
    }

    /// The number of live cells around (`row`, `column`).
    pub fn live_neighbor_count(&self, row: usize, column: usize) -> (count: u8)
        requires
            self.wf(),
            row < self.height(),
            column < self.width(),
        ensures
            count == live_neighbors(
                self.view_cells(),
                self.width() as int,
                self.height() as int,
                row as int,
                column as int,
            ),
    {
        self.count_row(row, column, self.height - 1) + self.count_row(row, column, 0)
            + self.count_row(row, column, 1)
    }

    /// Marks the three-by-three block around (`row`, `column`) as changed.
    fn mark_block(&mut self, row: usize, column: usize)
        requires
            old(self).wf(),
            row < old(self).height(),
            column < old(self).width(),
        ensures
            final(self).wf(),
            final(self).width() == old(self).width(),
            final(self).height() == old(self).height(),
            final(self).cells == old(self).cells,
            final(self).next_cells == old(self).next_cells,
            forall|j: int|
                0 <= j < old(self).view_changed().len() ==> (#[trigger] final(self).view_changed()[j]) == (old(self).view_changed()[j] || near(
                    old(self).width() as int,
                    old(self).height() as int,
                    row as int,
                    column as int,
                    j,
                )),
    {
        let ghost w = self.width as int;
        let ghost h = self.height as int;
        let ghost before = self.changed_cells@;
        let mut a: usize = 0;
        while a < 3
            invariant
                a <= 3,
                self.wf(),
                self.width == w,
                self.height == h,
                row < h,
                column < w,
                self.cells == old(self).cells,
                self.next_cells == old(self).next_cells,
                before.len() == self.changed_cells@.len(),
                forall|j: int|
                    0 <= j < before.len() ==> (#[trigger] self.changed_cells@[j]) == (before[j]
                        || exists|x: int, y: int|
                        0 <= x < a && 0 <= y < 3 && j == #[trigger] block_index(
                            w,
                            h,
                            row as int,
                            column as int,
                            x,
                            y,
                        )),
            decreases 3 - a,
        {
            let delta_row = if a == 0 {
                self.height - 1
            } else if a == 1 {
                0
            } else {
                1
            };
            let mut b: usize = 0;
            while b < 3
                invariant
                    a < 3,
                    b <= 3,
                    self.wf(),
                    self.width == w,
                    self.height == h,
                    row < h,
                    column < w,
                    delta_row == offset(h, a as int),
                    self.cells == old(self).cells,
                    self.next_cells == old(self).next_cells,
                    before.len() == self.changed_cells@.len(),
                    forall|j: int|
                        0 <= j < before.len() ==> (#[trigger] self.changed_cells@[j]) == (
                        before[j] || exists|x: int, y: int|
                            (0 <= x < a && 0 <= y < 3 || x == a && 0 <= y < b) && j
                                == #[trigger] block_index(w, h, row as int, column as int, x, y)),
                decreases 3 - b,
            {
                let delta_col = if b == 0 {
                    self.width - 1
                } else if b == 1 {
                    0
                } else {
                    1
                };
                let neighbor_row = wrapped(row, delta_row, self.height);
                let neighbor_col = wrapped(column, delta_col, self.width);
                let idx = self.get_index(neighbor_row, neighbor_col);
                let ghost prior = self.changed_cells@;
                self.changed_cells[idx] = true;
                proof {
                    let k = block_index(w, h, row as int, column as int, a as int, b as int);
                    assert(idx == k);
                    assert forall|j: int| 0 <= j < before.len() implies (
                    #[trigger] self.changed_cells@[j]) == (before[j] || exists|x: int, y: int|
                        (0 <= x < a && 0 <= y < 3 || x == a && 0 <= y < b + 1) && j
                            == #[trigger] block_index(w, h, row as int, column as int, x, y)) by {
                        if j == k {
                        } else {
                            assert(self.changed_cells@[j] == prior[j]);
                        }
                    }
                }
                b += 1;
            }
            a += 1;
        }
    }

    /// Moves the board on by one generation. Every cell whose state changes,
    /// and every cell around such a cell, counts as changed from then on.
    pub fn tick(&mut self)
        requires
            old(self).wf(),
        ensures
            final(self).wf(),
            final(self).width() == old(self).width(),
            final(self).height() == old(self).height(),
            forall|i: int|
                0 <= i < old(self).view_cells().len() ==> (#[trigger] final(self).view_cells()[i])
                    == evolved(
                    old(self).view_cells(),
                    old(self).width() as int,
                    old(self).height() as int,
                    i,
                ),
            forall|j: int|
                0 <= j < old(self).view_changed().len() ==> (#[trigger] final(self).view_changed()[j]) == stirred(
                    old(self).view_cells(),
                    old(self).view_changed(),
                    old(self).width() as int,
                    old(self).height() as int,
                    old(self).view_cells().len() as int,
                    j,
                ),
    {
        let ghost w = self.width as int;
        let ghost h = self.height as int;
        let ghost cells = self.cells@;
        let ghost changed = self.changed_cells@;
        let mut row: usize = 0;
        while row < self.height
            invariant
                row <= self.height,
                self.wf(),
                self.width == w,
                self.height == h,
                self.cells@ == cells,
                changed.len() == cells.len(),
                row * w <= cells.len(),
                forall|i: int|
                    0 <= i < row * w ==> (#[trigger] self.next_cells@[i]) == evolved(
                        cells,
                        w,
                        h,
                        i,
                    ),
                forall|j: int|
                    0 <= j < cells.len() ==> (#[trigger] self.changed_cells@[j]) == stirred(
                        cells,
                        changed,
                        w,
                        h,
                        row * w,
                        j,
                    ),
            decreases self.height - row,
        {
            let mut column: usize = 0;
            proof {
                assert(row * w + w <= w * h) by (nonlinear_arith)
                    requires
                        0 <= row < h,
                        0 <= w,
                ;
                if w > 0 {
                    lemma_cell_index(w, h, row as int, 0);
                } else {
                    assert(row * w == 0 && w * h == 0) by (nonlinear_arith)
                        requires
                            w == 0,
                    ;
                }
            }
            while column < self.width
                invariant
                    row < self.height,
                    column <= self.width,
                    self.wf(),
                    self.width == w,
                    self.height == h,
                    self.cells@ == cells,
                    changed.len() == cells.len(),
                    row * w + w <= cells.len(),
                    0 <= row * w,
                    forall|i: int|
                        0 <= i < row * w + column ==> (#[trigger] self.next_cells@[i])
                            == evolved(cells, w, h, i),
                    forall|j: int|
                        0 <= j < cells.len() ==> (#[trigger] self.changed_cells@[j]) == stirred(
                            cells,
                            changed,
                            w,
                            h,
                            row * w + column,
                            j,
                        ),
                decreases self.width - column,
            {
                let idx = self.get_index(row, column);
                let cell = self.cells[idx];
                let live_neighbors = self.live_neighbor_count(row, column);
                let next_cell = match cell {
                    Cell::Alive => if live_neighbors == 2 || live_neighbors == 3 {
                        Cell::Alive
                    } else {
                        Cell::Dead
                    },
                    Cell::Dead => if live_neighbors == 3 {
                        Cell::Alive
                    } else {
                        Cell::Dead
                    },
                };
                assert(next_cell == evolved(cells, w, h, idx as int));
                let ghost prior = self.changed_cells@;
                if cell != next_cell {
                    self.mark_block(row, column);
                    assert(forall|j: int|
                        0 <= j < cells.len() ==> (#[trigger] self.changed_cells@[j]) == (prior[j]
                            || near(w, h, row as int, column as int, j))) by {
                        assert(self.view_changed() == self.changed_cells@);
                    }
                }
                let ghost marked = self.changed_cells@;
                self.next_cells[idx] = next_cell;
                proof {
                    assert(self.changed_cells@ == marked);
                    assert(idx as int / w == row && idx as int % w == column);
                    assert(idx == row * w + column);
                    assert forall|j: int| 0 <= j < cells.len() implies (
                    #[trigger] self.changed_cells@[j]) == stirred(
                        cells,
                        changed,
                        w,
                        h,
                        idx + 1,
                        j,
                    ) by {
                        let now = self.changed_cells@;
                        let flipped = cell != next_cell;
                        assert(prior[j] == stirred(cells, changed, w, h, idx as int, j));
                        assert(now[j] == (prior[j] || (flipped && near(
                            w,
                            h,
                            row as int,
                            column as int,
                            j,
                        ))));
                        let was = stirred(cells, changed, w, h, idx as int, j);
                        let will = stirred(cells, changed, w, h, idx + 1, j);
                        if was && !changed[j] {
                            let i = choose|i: int|
                                0 <= i < idx && #[trigger] evolved(cells, w, h, i) != cells[i]
                                    && near(w, h, i / w, i % w, j);
                            assert(0 <= i < idx + 1 && evolved(cells, w, h, i) != cells[i]
                                && near(w, h, i / w, i % w, j));
                            assert(will);
                        }
                        if flipped && near(w, h, row as int, column as int, j) {
                            let i = idx as int;
                            assert(0 <= i < idx + 1 && evolved(cells, w, h, i) != cells[i]
                                && near(w, h, i / w, i % w, j));
                            assert(will);
                        }
                        if will && !was {
                            let i = choose|i: int|
                                0 <= i < idx + 1 && #[trigger] evolved(cells, w, h, i) != cells[i]
                                    && near(w, h, i / w, i % w, j);
                            if i < idx {
                                assert(was);
                            }
                            assert(i == idx);
                        }
                    }
                }
                column += 1;
            }
            proof {
                assert((row + 1) * w == row * w + w) by (nonlinear_arith);
            }
            row += 1;
        }
        proof {
            assert(row * w == cells.len()) by (nonlinear_arith)
                requires
                    row == h,
                    cells.len() == w * h,
            ;
        }
        std::mem::swap(&mut self.cells, &mut self.next_cells);
    }

    /// The number of columns.
    #[verifier::when_used_as_spec(spec_width)]
    pub fn width(&self) -> (w: usize)
        ensures
            w == self.spec_width(),
    {
        self.width
    }

    /// The number of rows.
    #[verifier::when_used_as_spec(spec_height)]
    pub fn height(&self) -> (h: usize)
        ensures
            h == self.spec_height(),
    {
        self.height
    }

    /// The cells, row by row.
    pub fn cells(&self) -> (cells: &Vec<Cell>)
        ensures
            cells@ == self.view_cells(),
    {
        &self.cells
    }

    /// The changed cells as a flat list: row, column, row, column and so on,
    /// the cells in reading order.
    pub fn changed_cells(&self) -> (flat: Vec<usize>)
        requires
            self.wf(),
        ensures
            flat@ == flat_changed(self.view_changed(), self.width() as int, self.view_changed().len() as int),
    {
        let mut result: Vec<usize> = Vec::new();
        let n = self.changed_cells.len();
        let mut i: usize = 0;
        while i < n
            invariant
                i <= n,
                n == self.changed_cells@.len(),
                self.wf(),
                result@ == flat_changed(self.changed_cells@, self.width as int, i as int),
            decreases n - i,
        {
            if self.changed_cells[i] {
                proof {
                    if self.width == 0 {
                        assert(self.width * self.height == 0) by (nonlinear_arith)
                            requires
                                self.width == 0,
                        ;
                    }
                }
                result.push(i / self.width);
                result.push(i % self.width);
            }
            i += 1;
        }
        result
    }

    /// Turns the cell (`row`, `column`) over, and marks it and the cells
    /// around it as changed.
    pub fn toggle_cell(&mut self, row: usize, column: usize)
        requires
            old(self).wf(),
            row < old(self).height(),
            column < old(self).width(),
        ensures
            final(self).wf(),
            final(self).width() == old(self).width(),
            final(self).height() == old(self).height(),
            final(self).view_cells() == old(self).view_cells().update(
                row * old(self).width() + column,
                if old(self).view_cells()[row * old(self).width() + column] == Cell::Alive {
                    Cell::Dead
                } else {
                    Cell::Alive
                },
            ),
            forall|j: int|
                0 <= j < old(self).view_changed().len() ==> (#[trigger] final(self).view_changed()[j]) == (old(self).view_changed()[j] || near(
                    old(self).width() as int,
                    old(self).height() as int,
                    row as int,
                    column as int,
                    j,
                )),
    {
        let idx = self.get_index(row, column);
        let turned = match self.cells[idx] {
            Cell::Alive => Cell::Dead,
            Cell::Dead => Cell::Alive,
        };
        self.cells[idx] = turned;
        self.mark_block(row, column);
    }

    /// Kills every cell and marks every cell as changed.
    pub fn clear(&mut self)
        requires
            old(self).wf(),
        ensures
            final(self).wf(),
            final(self).width() == old(self).width(),
            final(self).height() == old(self).height(),
            forall|i: int|
                0 <= i < final(self).view_cells().len() ==> (#[trigger] final(self).view_cells()[i]) == Cell::Dead,
            forall|i: int|
                0 <= i < final(self).view_changed().len() ==> #[trigger] final(self).view_changed()[i],
    {
        let n = self.cells.len();
        let mut i: usize = 0;
        while i < n
            invariant
                i <= n,
                self.wf(),
                n == self.cells@.len(),
                self.width == old(self).width,
                self.height == old(self).height,
                forall|k: int| 0 <= k < i ==> (#[trigger] self.cells@[k]) == Cell::Dead,
                forall|k: int| 0 <= k < i ==> #[trigger] self.changed_cells@[k],
            decreases n - i,
        {
            self.cells[i] = Cell::Dead;
            self.next_cells[i] = Cell::Dead;
            self.changed_cells[i] = true;
            i += 1;
        }
    }
}

impl Universe {
    /// Clears the board and puts the pattern down at every position.
    ///
    /// `pattern_data` lists the live cells of the pattern as row, column,
    /// row, column and so on, and `flat_positions` lists in the same way the
    /// places where its top left corner goes. A position outside the board
    /// is skipped, and so is whatever part of the pattern would fall over
    /// the edge. Fails, after all complete positions have been dealt with,
    /// if a last position lacks its column.
    pub fn load_multiple_patterns_flat(
        &mut self,
        pattern_data: Vec<usize>,
        _pattern_width: usize,
        _pattern_height: usize,
        flat_positions: Vec<usize>,
    ) -> (out: Result<(), PatternError>)
        requires
            old(self).wf(),
        ensures
            final(self).wf(),
            final(self).width() == old(self).width(),
            final(self).height() == old(self).height(),
            out is Err <==> flat_positions@.len() % 2 == 1,
            forall|i: int|
                0 <= i < final(self).view_cells().len() ==> (#[trigger] final(
                    self).view_cells()[i]) == alive_if(
                    stamped(
                        pattern_data@,
                        flat_positions@,
                        old(self).width() as int,
                        old(self).height() as int,
                        flat_positions@.len() as int / 2,
                        0,
                        i / (old(self).width() as int),
                        i % (old(self).width() as int),
                    ),
                ),
            forall|i: int|
                0 <= i < final(self).view_changed().len() ==> #[trigger] final(
                    self).view_changed()[i],
    {
        self.clear();
        proof {
            assert(self.view_changed() == self.changed_cells@);
            assert(self.view_cells() == self.cells@);
        }
        let ghost w = self.width as int;
        let ghost h = self.height as int;
        let ghost pattern = pattern_data@;
        let ghost positions = flat_positions@;
        let pairs = flat_positions.len() / 2;
        let shapes = pattern_data.len() / 2;
        let mut k: usize = 0;
        while k < pairs
            invariant
                k <= pairs,
                2 * pairs <= flat_positions.len(),
                2 * shapes <= pattern_data.len(),
                pairs == positions.len() / 2,
                shapes == pattern.len() / 2,
                pattern == pattern_data@,
                positions == flat_positions@,
                self.wf(),
                self.width == w,
                self.height == h,
                forall|i: int| 0 <= i < self.changed_cells@.len() ==> #[trigger] self.changed_cells@[i],
                forall|i: int|
                    0 <= i < self.cells@.len() ==> (#[trigger] self.cells@[i]) == alive_if(
                        stamped(pattern, positions, w, h, k as int, 0, i / w, i % w),
                    ),
            decreases pairs - k,
        {
            let start_row = flat_positions[2 * k];
            let start_col = flat_positions[2 * k + 1];
            if start_row < self.height && start_col < self.width {
                let mut m: usize = 0;
                while m < shapes
                    invariant
                        k < pairs,
                        m <= shapes,
                        2 * pairs <= flat_positions.len(),
                        2 * shapes <= pattern_data.len(),
                        pairs == positions.len() / 2,
                        shapes == pattern.len() / 2,
                        pattern == pattern_data@,
                        positions == flat_positions@,
                        start_row == positions[2 * k],
                        start_col == positions[2 * k + 1],
                        start_row < h,
                        start_col < w,
                        self.wf(),
                        self.width == w,
                        self.height == h,
                        forall|i: int|
                            0 <= i < self.changed_cells@.len() ==> #[trigger] self.changed_cells@[i],
                        forall|i: int|
                            0 <= i < self.cells@.len() ==> (#[trigger] self.cells@[i])
                                == alive_if(
                                stamped(pattern, positions, w, h, k as int, m as int, i / w, i % w),
                            ),
                    decreases shapes - m,
                {
                    let pattern_row = pattern_data[2 * m];
                    let pattern_col = pattern_data[2 * m + 1];
                    let ghost prior = self.cells@;
                    let ghost hit: int = -1;
                    if pattern_row < self.height - start_row && pattern_col < self.width
                        - start_col {
                        let universe_row = start_row + pattern_row;
                        let universe_col = start_col + pattern_col;
                        let idx = self.get_index(universe_row, universe_col);
                        self.cells[idx] = Cell::Alive;
                        self.changed_cells[idx] = true;
                        proof {
                            hit = idx as int;
                        }
                    }
                    proof {
                        assert forall|i: int| 0 <= i < self.cells@.len() implies (
                        #[trigger] self.cells@[i]) == alive_if(
                            stamped(pattern, positions, w, h, k as int, m + 1, i / w, i % w),
                        ) by {
                            let (r, c) = (i / w, i % w);
                            lemma_index_split(w, h, i);
                            let was = stamped(pattern, positions, w, h, k as int, m as int, r, c);
                            let will = stamped(pattern, positions, w, h, k as int, m + 1, r, c);
                            let here = lands_on(pattern, positions, w, h, k as int, m as int, r, c);
                            assert(prior[i] == alive_if(was));
                            if was {
                                let (k0, m0) = choose|k0: int, m0: int|
                                    0 <= m0 < pattern.len() / 2 && (0 <= k0 < k || (k0 == k && m0
                                        < m)) && #[trigger] lands_on(
                                        pattern,
                                        positions,
                                        w,
                                        h,
                                        k0,
                                        m0,
                                        r,
                                        c,
                                    );
                                assert(lands_on(pattern, positions, w, h, k0, m0, r, c));
                                assert(will);
                            }
                            if here {
                                assert(will);
                                assert(i == hit);
                            }
                            if will && !was {
                                let (k0, m0) = choose|k0: int, m0: int|
                                    0 <= m0 < pattern.len() / 2 && (0 <= k0 < k || (k0 == k && m0
                                        < m + 1)) && #[trigger] lands_on(
                                        pattern,
                                        positions,
                                        w,
                                        h,
                                        k0,
                                        m0,
                                        r,
                                        c,
                                    );
                                if !(k0 == k && m0 == m) {
                                    assert(lands_on(pattern, positions, w, h, k0, m0, r, c));
                                    assert(was);
                                }
                                assert(here);
                            }
                            if i == hit {
                                assert(here);
                            }
                        }
                    }
                    m += 1;
                }
            }
            proof {
                assert forall|i: int| 0 <= i < self.cells@.len() implies (
                #[trigger] self.cells@[i]) == alive_if(
                    stamped(pattern, positions, w, h, k + 1, 0, i / w, i % w),
                ) by {
                    let (r, c) = (i / w, i % w);
                    let full = stamped(pattern, positions, w, h, k as int, shapes as int, r, c);
                    let none = stamped(pattern, positions, w, h, k as int, 0, r, c);
                    let next = stamped(pattern, positions, w, h, k + 1, 0, r, c);
                    if next {
                        let (k0, m0) = choose|k0: int, m0: int|
                            0 <= m0 < pattern.len() / 2 && (0 <= k0 < k + 1 || (k0 == k + 1 && m0
                                < 0)) && #[trigger] lands_on(
                                pattern,
                                positions,
                                w,
                                h,
                                k0,
                                m0,
                                r,
                                c,
                            );
                        assert(lands_on(pattern, positions, w, h, k0, m0, r, c));
                        assert(full);
                        if !(start_row < h && start_col < w) {
                            assert(k0 < k);
                            assert(none);
                        }
                    }
                    if full {
                        let (k0, m0) = choose|k0: int, m0: int|
                            0 <= m0 < pattern.len() / 2 && (0 <= k0 < k || (k0 == k && m0
                                < shapes)) && #[trigger] lands_on(
                                pattern,
                                positions,
                                w,
                                h,
                                k0,
                                m0,
                                r,
                                c,
                            );
                        assert(lands_on(pattern, positions, w, h, k0, m0, r, c));
                        assert(next);
                    }
                    if none {
                        let (k0, m0) = choose|k0: int, m0: int|
                            0 <= m0 < pattern.len() / 2 && (0 <= k0 < k || (k0 == k && m0 < 0))
                                && #[trigger] lands_on(pattern, positions, w, h, k0, m0, r, c);
                        assert(lands_on(pattern, positions, w, h, k0, m0, r, c));
                        assert(next);
                    }
                }
            }
            k += 1;
        }
        if flat_positions.len() % 2 == 1 {
            Err(PatternError::PlacementOutOfBounds)
        } else {
            Ok(())
        }
    }
}

/// The changed cells among the first `upto`, as a flat list of rows and columns.
pub open spec fn flat_changed(changed: Seq<bool>, width: int, upto: int) -> Seq<usize>
    decreases upto,
{
    if upto <= 0 {
        Seq::empty()
    } else {
        let before = flat_changed(changed, width, upto - 1);
        if changed[upto - 1] {
            before.push(((upto - 1) / width) as usize).push(((upto - 1) % width) as usize)
        } else {
            before
        }
    }
}

} // verus!
