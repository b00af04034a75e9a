//! Reading a maze from text.
//!
//! The text is cut into lines at every `\n`. Carriage returns at the end of a
//! line are dropped, and so is every line that is then empty. In what remains
//! `*` is a wall and a space is an open cell; all rows must be equally wide.

use crate::error::MazeError;
use crate::grid::{CellType, Grid};
use vstd::prelude::*;

verus! {

/// The pieces of `s` between its newlines; `n` newlines give `n + 1` pieces.
pub open spec fn split_lines(s: Seq<char>) -> Seq<Seq<char>>
    decreases s.len(),
{
    if s.len() == 0 {
        seq![Seq::empty()]
    } else {
        let before = split_lines(s.drop_last());
        if s.last() == '\n' {
            before.push(Seq::empty())
        } else {
            before.drop_last().push(before.last().push(s.last()))
        }
    }
}

/// `line` without the carriage returns at its end.
pub open spec fn strip_cr(line: Seq<char>) -> Seq<char>
    decreases line.len(),
{
    if line.len() > 0 && line.last() == '\r' {
        strip_cr(line.drop_last())
    } else {
        line
    }
}

/// The lines that describe a row: stripped of trailing carriage returns, blank ones left out.
pub open spec fn row_texts(lines: Seq<Seq<char>>) -> Seq<Seq<char>>
    decreases lines.len(),
{
    if lines.len() == 0 {
        Seq::empty()
    } else {
        let before = row_texts(lines.drop_last());
        let line = strip_cr(lines.last());
        if line.len() == 0 {
            before
        } else {
            before.push(line)
        }
    }
}

/// The rows of a maze text, still as characters.
pub open spec fn maze_rows(text: Seq<char>) -> Seq<Seq<char>> {
    row_texts(split_lines(text))
}

/// The two characters a maze is drawn with.
pub open spec fn is_symbol(c: char) -> bool {
    c == '*' || c == ' '
}

/// The cell that a maze symbol stands for.
pub open spec fn cell_of(c: char) -> CellType {
    if c == '*' {
        CellType::Wall
    } else {
        CellType::Path
    }
}

/// Every character of every row is a maze symbol.
pub open spec fn all_symbols(rows: Seq<Seq<char>>) -> bool {
    forall|i: int, j: int|
        0 <= i < rows.len() && 0 <= j < rows[i].len() ==> is_symbol(#[trigger] rows[i][j])
}

/// The character at row `i`, column `j` is no maze symbol, and in reading
/// order it is the first such character.
pub open spec fn first_bad_symbol_at(rows: Seq<Seq<char>>, i: int, j: int) -> bool {
    &&& 0 <= i < rows.len()
    &&& 0 <= j < rows[i].len()
    &&& !is_symbol(rows[i][j])
    &&& forall|j2: int| 0 <= j2 < j ==> is_symbol(#[trigger] rows[i][j2])
    &&& forall|i2: int, j2: int|
        0 <= i2 < i && 0 <= j2 < rows[i2].len() ==> is_symbol(#[trigger] rows[i2][j2])
}

/// Row `r` is the first whose width differs from that of row 0.
pub open spec fn first_odd_row_at(rows: Seq<Seq<char>>, r: int) -> bool {
    &&& 0 < r < rows.len()
    &&& rows[r].len() != rows[0].len()
    &&& forall|k: int| 0 <= k < r ==> (#[trigger] rows[k]).len() == rows[0].len()
}

/// Every row is as wide as the first.
pub open spec fn same_width(rows: Seq<Seq<char>>) -> bool {
    forall|k: int| 0 <= k < rows.len() ==> (#[trigger] rows[k]).len() == rows[0].len()
}

/// `g` holds, cell for cell, what the rows of characters describe.
pub open spec fn grid_matches(g: Seq<Seq<CellType>>, rows: Seq<Seq<char>>) -> bool {
    &&& g.len() == rows.len()
    &&& forall|i: int| 0 <= i < rows.len() ==> (#[trigger] g[i]).len() == rows[i].len()
    &&& forall|i: int, j: int|
        0 <= i < rows.len() && 0 <= j < rows[i].len() ==> (#[trigger] g[i][j]) == cell_of(
            rows[i][j],
        )
}

/// What parsing `text` must give: the first bad symbol if there is one, else
/// the first row of another width, else the grid.
pub open spec fn parse_result(text: Seq<char>, out: Result<Grid, MazeError>) -> bool {
    let rows = maze_rows(text);
    match out {
        Ok(grid) => {
            &&& all_symbols(rows)
            &&& same_width(rows)
            &&& grid.wf()
            &&& grid_matches(grid@, rows)
        },
        Err(MazeError::InvalidGridSymbol(c)) => exists|i: int, j: int|
            #[trigger] first_bad_symbol_at(rows, i, j) && rows[i][j] == c,
        Err(MazeError::InconsistentRowWidth { row, expected, found }) => {
            &&& all_symbols(rows)
            &&& first_odd_row_at(rows, row as int)
            &&& expected == rows[0].len()
            &&& found == rows[row as int].len()
        },
        Err(_) => false,
    }
}

/// The views of the vectors in `v`.
pub open spec fn views<T>(v: Seq<Vec<T>>) -> Seq<Seq<T>> {
    Seq::new(v.len(), |i: int| v[i]@)
}

fn split_text(text: &str) -> (lines: Vec<Vec<char>>)
    ensures
        views(lines@) == split_lines(text@),
{
    let mut lines: Vec<Vec<char>> = Vec::new();
    let mut current: Vec<char> = Vec::new();
    proof {
        assert(text@.take(0) == Seq::<char>::empty());
        assert(views(lines@).push(current@) == split_lines(text@.take(0)));
    }
    for c in it: text.chars()
        invariant
            it.seq() == text@,
            views(lines@).push(current@) == split_lines(text@.take(it.index() as int)),
    {
        proof {
            let i = it.index() as int;
            let longer = text@.take(i + 1);
            assert(longer.drop_last() == text@.take(i));
            assert(longer.last() == c);
            let before = split_lines(text@.take(i));
            assert(before.last() == current@);
            assert(before.drop_last() == views(lines@));
        }
        if c == '\n' {
            proof {
                assert(views(lines@.push(current)) == views(lines@).push(current@));
            }
            lines.push(current);
            current = Vec::new();
        } else {
            current.push(c);
        }
    }
    proof {
        assert(text@.take(text@.len() as int) == text@);
        assert(views(lines@.push(current)) == views(lines@).push(current@));
    }
    lines.push(current);
    lines
}

/// The length of `line` once the carriage returns at its end are gone.
fn stripped_len(line: &Vec<char>) -> (n: usize)
    ensures
        n <= line@.len(),
        strip_cr(line@) == line@.take(n as int),
{
    let mut n = line.len();
    proof {
        assert(line@.take(n as int) == line@);
    }
    while n > 0 && line[n - 1] == '\r'
        invariant
            n <= line@.len(),
            strip_cr(line@) == strip_cr(line@.take(n as int)),
        decreases n,
    {
        proof {
            assert(line@.take(n as int).drop_last() == line@.take(n - 1));
        }
        n -= 1;
    }
    n
}

/// Turns the first `n` characters of `line` into cells, or reports the first
/// character that is no maze symbol.
fn read_row(line: &Vec<char>, n: usize) -> (out: Result<Vec<CellType>, char>)
    requires
        n <= line@.len(),
    ensures
        match out {
            Ok(cells) => {
                &&& cells@.len() == n
                &&& forall|j: int| 0 <= j < n ==> is_symbol(#[trigger] line@[j])
                &&& forall|j: int| 0 <= j < n ==> (#[trigger] cells@[j]) == cell_of(line@[j])
            },
            Err(c) => exists|j: int|
                {
                    &&& 0 <= j < n
                    &&& #[trigger] line@[j] == c
                    &&& !is_symbol(c)
                    &&& forall|j2: int| 0 <= j2 < j ==> is_symbol(#[trigger] line@[j2])
                },
        },
{
    let mut cells: Vec<CellType> = Vec::new();
    let mut j: usize = 0;
    while j < n
        invariant
            j <= n <= line@.len(),
            cells@.len() == j,
            forall|k: int| 0 <= k < j ==> is_symbol(#[trigger] line@[k]),
            forall|k: int| 0 <= k < j ==> (#[trigger] cells@[k]) == cell_of(line@[k]),
        decreases n - j,
    {
        let c = line[j];
        if c == '*' {
            cells.push(CellType::Wall);
        } else if c == ' ' {
            cells.push(CellType::Path);
        } else {
            assert(line@[j as int] == c);
            return Err(c);
        }
        j += 1;
    }
    Ok(cells)
}

/// Builds the grid that `maze_data` describes.
///
/// Fails with `InvalidGridSymbol` on the first character, in reading order,
/// that is neither `*` nor a space (a carriage return counts unless it ends
/// its line). Where all symbols are good, fails with `InconsistentRowWidth`
/// on the first row that is not as wide as the first.
pub fn parse_maze(maze_data: &str) -> (out: Result<Grid, MazeError>)
    ensures
        parse_result(maze_data@, out),
        out is Ok <==> all_symbols(maze_rows(maze_data@)) && same_width(maze_rows(maze_data@)),
{
    let lines = split_text(maze_data);
    let mut rows: Vec<Vec<CellType>> = Vec::new();
    let ghost texts: Seq<Seq<char>> = Seq::empty();
    let mut i: usize = 0;
    proof {
        assert(views(lines@).take(0) == Seq::<Seq<char>>::empty());
    }
    while i < lines.len()
        invariant
            i <= lines@.len(),
            views(lines@) == split_lines(maze_data@),
            texts == row_texts(views(lines@).take(i as int)),
            all_symbols(texts),
            rows@.len() == texts.len(),
            forall|r: int| 0 <= r < texts.len() ==> (#[trigger] rows@[r])@.len() == texts[r].len(),
            forall|r: int, c: int|
                0 <= r < texts.len() && 0 <= c < texts[r].len() ==> (#[trigger] rows@[r]@[c])
                    == cell_of(texts[r][c]),
        decreases lines@.len() - i,
    {
        let line = &lines[i];
        let n = stripped_len(line);
        proof {
            let longer = views(lines@).take(i + 1);
            assert(longer.drop_last() == views(lines@).take(i as int));
            assert(longer.last() == line@);
        }
        if n > 0 {
            let ghost text = line@.take(n as int);
            let ghost grown = texts.push(text);
            match read_row(line, n) {
                Ok(cells) => {
                    rows.push(cells);
                    proof {
                        assert forall|r: int, c: int|
                            0 <= r < grown.len() && 0 <= c < grown[r].len() implies is_symbol(
                            #[trigger] grown[r][c],
                        ) by {
                            if r < texts.len() {
                                assert(grown[r][c] == texts[r][c]);
                            } else {
                                assert(grown[r][c] == line@[c]);
                            }
                        }
                        assert forall|r: int, c: int|
                            0 <= r < grown.len() && 0 <= c < grown[r].len() implies (
                        #[trigger] rows@[r]@[c]) == cell_of(grown[r][c]) by {
                            if r < texts.len() {
                                assert(grown[r][c] == texts[r][c]);
                            } else {
                                assert(grown[r][c] == line@[c]);
                            }
                        }
                        texts = grown;
                    }
                },
                Err(c) => {
                    proof {
                        let j = choose|j: int|
                            {
                                &&& 0 <= j < n
                                &&& #[trigger] line@[j] == c
                                &&& !is_symbol(c)
                                &&& forall|j2: int| 0 <= j2 < j ==> is_symbol(#[trigger] line@[j2])
                            };
                        let all = maze_rows(maze_data@);
                        lemma_row_texts_prefix(views(lines@), i + 1);
                        let r = texts.len() as int;
                        assert(row_texts(views(lines@).take(i + 1)) == grown);
                        assert(grown[r] == text);
                        assert(all[r] == text);
                        assert forall|j2: int| 0 <= j2 < j implies is_symbol(
                            #[trigger] all[r][j2],
                        ) by {
                            assert(all[r][j2] == line@[j2]);
                        }
                        assert forall|i2: int, j2: int|
                            0 <= i2 < r && 0 <= j2 < all[i2].len() implies is_symbol(
                            #[trigger] all[i2][j2],
                        ) by {
                            assert(grown[i2] == texts[i2]);
                            assert(all[i2] == texts[i2]);
                            assert(all[i2][j2] == texts[i2][j2]);
                        }
                        assert(first_bad_symbol_at(all, r, j));
                        assert(!all_symbols(all));
                    }
                    return Err(MazeError::InvalidGridSymbol(c));
                },
            }
        }
        i += 1;
    }
    proof {
        assert(views(lines@).take(lines@.len() as int) == views(lines@));
        assert(texts == maze_rows(maze_data@));
    }
    match Grid::from_rows(&rows) {
        Ok(grid) => {
            proof {
                assert forall|k: int| 0 <= k < texts.len() implies (#[trigger] texts[k]).len()
                    == texts[0].len() by {
                    assert(rows@[k]@.len() == rows@[0]@.len());
                }
                assert forall|a: int, b: int|
                    0 <= a < texts.len() && 0 <= b < texts[a].len() implies (
                #[trigger] grid@[a][b]) == cell_of(texts[a][b]) by {
                    assert(grid@[a] == rows@[a]@);
                    assert(rows@[a]@[b] == cell_of(texts[a][b]));
                }
                assert forall|a: int| 0 <= a < texts.len() implies (#[trigger] grid@[a]).len()
                    == texts[a].len() by {
                    assert(grid@[a] == rows@[a]@);
                }
            }
            Ok(grid)
        },
        Err(row) => {
            proof {
                assert forall|k: int| 0 <= k < row implies (#[trigger] texts[k]).len()
                    == texts[0].len() by {
                    assert(rows@[k]@.len() == rows@[0]@.len());
                }
                assert(first_odd_row_at(texts, row as int));
                assert(!same_width(texts));
            }
            Err(
                MazeError::InconsistentRowWidth {
                    row,
                    expected: rows[0].len(),
                    found: rows[row].len(),
                },
            )
        },
    }
}

/// The rows found in a prefix of the lines are the first rows found in all of them.
proof fn lemma_row_texts_prefix(lines: Seq<Seq<char>>, n: int)
    requires
        0 <= n <= lines.len(),
    ensures
        row_texts(lines.take(n)).len() <= row_texts(lines).len(),
        forall|k: int|
            0 <= k < row_texts(lines.take(n)).len() ==> #[trigger] row_texts(lines)[k]
                == row_texts(lines.take(n))[k],
    decreases lines.len() - n,
{
    if n == lines.len() {
        assert(lines.take(n) == lines);
    } else {
        lemma_row_texts_prefix(lines, n + 1);
        let longer = lines.take(n + 1);
        assert(longer.drop_last() == lines.take(n));
    }
}

} // verus!
