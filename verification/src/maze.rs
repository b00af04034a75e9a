//! The maze session: a grid, the two agents on it, and what to paint.
//!
//! The session paints nothing itself. Where the screen has to change it
//! returns paint commands, and whoever owns the canvas carries them out.

use crate::error::MazeError;
use crate::grid::{in_bounds, traversable, width, CellType, Grid, Position};
use crate::parse::{all_symbols, grid_matches, maze_rows, parse_maze, parse_result, same_width};
use crate::pathfinding::astar::AstarSolver;
use crate::pathfinding::best_first::BestFirstSolver;
use crate::pathfinding::bfs::BfsSolver;
use crate::pathfinding::dfs::DfsSolver;
use crate::pathfinding::dijkstra::DijkstraSolver;
use crate::pathfinding::model::Algorithm;
use crate::pathfinding::search::SearchOutcome;
use crate::pathfinding::{algorithm_named, answers, named};
use crate::random::{gen_below, thread_rng};
use vstd::prelude::*;

verus! {

/// Who stands on a cell.
#[derive(Clone, Copy, PartialEq, Eq, Structural, Debug)]
pub enum PlayerType {
    Computer,
    Human,
    Target,
}

/// The colours the maze is painted in.
#[derive(Clone, Copy, PartialEq, Eq, Structural, Debug)]
pub enum Color {
    Black,
    Red,
    Blue,
    Yellow,
    LightCoral,
}

/// A command to fill one cell with a colour.
#[derive(Clone, Copy, PartialEq, Eq, Structural, Debug)]
pub struct Paint {
    pub pos: Position,
    pub color: Color,
}

/// How often a random cell is drawn before placing an agent is given up.
pub const MAX_ATTEMPTS: usize = 50;

/// The colour a player is painted in.
pub open spec fn colour_of(player: PlayerType) -> Color {
    match player {
        PlayerType::Computer => Color::Red,
        PlayerType::Human => Color::Blue,
        PlayerType::Target => Color::Yellow,
    }
}

/// An agent may be put on `p`: it is an open cell that no other agent holds.
pub open spec fn is_free(g: Seq<Seq<CellType>>, taken: Seq<Position>, p: Position) -> bool {
    traversable(g, p) && !taken.contains(p)
}

/// `a` comes before `b` when the cells are read row by row.
pub open spec fn reads_before(a: Position, b: Position) -> bool {
    a.row < b.row || (a.row == b.row && a.col < b.col)
}

/// `paints` blackens every wall of `g` once, row by row.
pub open spec fn paints_walls(g: Seq<Seq<CellType>>, paints: Seq<Paint>) -> bool {
    &&& forall|k: int|
        0 <= k < paints.len() ==> {
            &&& in_bounds(g, (#[trigger] paints[k]).pos)
            &&& g[paints[k].pos.row as int][paints[k].pos.col as int] == CellType::Wall
            &&& paints[k].color == Color::Black
        }
    &&& forall|i: int, j: int|
        0 <= i < j < paints.len() ==> reads_before(
            (#[trigger] paints[i]).pos,
            (#[trigger] paints[j]).pos,
        )
    &&& forall|p: Position|
        in_bounds(g, p) && g[p.row as int][p.col as int] == CellType::Wall ==> paints.contains(
            #[trigger] wall_paint(p),
        )
}

/// The command that blackens the cell `p`.
pub open spec fn wall_paint(p: Position) -> Paint {
    Paint { pos: p, color: Color::Black }
}

/// Whether an agent may be put on `p`.
pub fn cell_is_free(grid: &Grid, taken: &Vec<Position>, p: Position) -> (free: bool)
    ensures
        free == is_free(grid@, taken@, p),
{
    if !grid.traversable(p) {
        return false;
    }
    let mut i: usize = 0;
    while i < taken.len()
        invariant
            i <= taken@.len(),
            forall|k: int| 0 <= k < i ==> taken@[k] != p,
        decreases taken@.len() - i,
    {
        if taken[i] == p {
            return false;
        }
        i += 1;
    }
    true
}

/// `draws` tells how a placement went: every cell drawn lies within the
/// grid; and either the last one is free, none before it is, and it is the
/// one returned; or all `MAX_ATTEMPTS` were drawn, none is free, and the
/// placement failed.
pub open spec fn placed_by(
    g: Seq<Seq<CellType>>,
    taken: Seq<Position>,
    draws: Seq<Position>,
    out: Result<Position, MazeError>,
) -> bool {
    &&& draws.len() <= MAX_ATTEMPTS
    &&& forall|k: int| 0 <= k < draws.len() ==> in_bounds(g, #[trigger] draws[k])
    &&& match out {
        Ok(p) => {
            &&& draws.len() > 0
            &&& p == draws.last()
            &&& is_free(g, taken, p)
            &&& forall|k: int| 0 <= k < draws.len() - 1 ==> !is_free(g, taken, #[trigger] draws[k])
        },
        Err(e) => {
            &&& e is PlacementExhausted
            &&& draws.len() == MAX_ATTEMPTS
            &&& forall|k: int| 0 <= k < draws.len() ==> !is_free(g, taken, #[trigger] draws[k])
        },
    }
}

/// The first free cell among the first `MAX_ATTEMPTS` of `draws`.
///
/// Fails with `PlacementExhausted` exactly if none of them is free.
pub fn place_from(grid: &Grid, taken: &Vec<Position>, draws: &Vec<Position>) -> (out: Result<
    Position,
    MazeError,
>)
    ensures
        match out {
            Ok(p) => exists|i: int|
                {
                    &&& 0 <= i < draws@.len()
                    &&& i < MAX_ATTEMPTS
                    &&& p == #[trigger] draws@[i]
                    &&& is_free(grid@, taken@, p)
                    &&& forall|k: int| 0 <= k < i ==> !is_free(grid@, taken@, #[trigger] draws@[k])
                },
            Err(e) => {
                &&& e is PlacementExhausted
                &&& forall|k: int|
                    0 <= k < draws@.len() && k < MAX_ATTEMPTS ==> !is_free(
                        grid@,
                        taken@,
                        #[trigger] draws@[k],
                    )
            },
        },
{
    let mut attempt: usize = 0;
    while attempt < MAX_ATTEMPTS && attempt < draws.len()
        invariant
            forall|k: int| 0 <= k < attempt ==> !is_free(grid@, taken@, #[trigger] draws@[k]),
        decreases MAX_ATTEMPTS - attempt,
    {
        let p = draws[attempt];
        if cell_is_free(grid, taken, p) {
            return Ok(p);
        }
        attempt += 1;
    }
    Err(MazeError::PlacementExhausted)
}

/// Draws random cells of the grid until one is free, at most `MAX_ATTEMPTS`
/// times: first a column, then a row, each time.
///
/// On a grid without cells nothing is drawn and the placement fails. The
/// only failure is `PlacementExhausted`, which a caller may answer by
/// trying again.
pub fn place_agent(grid: &Grid, taken: &Vec<Position>) -> (out: Result<Position, MazeError>)
    ensures
        grid@.len() == 0 || width(grid@) == 0 ==> out is Err,
        out matches Err(e) ==> e is PlacementExhausted,
        grid@.len() > 0 && width(grid@) > 0 ==> exists|draws: Seq<Position>|
            placed_by(grid@, taken@, draws, out),
{
    let rows = grid.rows();
    let cols = grid.cols();
    if rows == 0 || cols == 0 {
        return Err(MazeError::PlacementExhausted);
    }
    let mut rng = thread_rng();
    let mut attempt: usize = 0;
    let ghost draws: Seq<Position> = Seq::empty();
    while attempt < MAX_ATTEMPTS
        invariant
            rows > 0,
            cols > 0,
            rows == grid@.len(),
            cols == width(grid@),
            attempt <= MAX_ATTEMPTS,
            draws.len() == attempt,
            forall|k: int| 0 <= k < draws.len() ==> in_bounds(grid@, #[trigger] draws[k]),
            forall|k: int| 0 <= k < draws.len() ==> !is_free(grid@, taken@, #[trigger] draws[k]),
        decreases MAX_ATTEMPTS - attempt,
    {
        let col = gen_below(&mut rng, cols);
        let row = gen_below(&mut rng, rows);
        let p = Position { row, col };
        let ghost longer = draws.push(p);
        if cell_is_free(grid, taken, p) {
            proof {
                assert(placed_by(grid@, taken@, longer, Ok(p)));
            }
            return Ok(p);
        }
        proof {
            draws = longer;
        }
        attempt += 1;
    }
    proof {
        assert(placed_by(grid@, taken@, draws, Err(MazeError::PlacementExhausted)));
    }
    Err(MazeError::PlacementExhausted)
}

/// A maze with a computer player that seeks and a target that is sought.
pub struct MazeState {
    maze_grid: Grid,
    computer_player: Position,
    target: Position,
    human_player: Option<Position>,
}

impl MazeState {
    /// The rows of the maze.
    pub closed spec fn grid_view(&self) -> Seq<Seq<CellType>> {
        self.maze_grid@
    }

    /// Where the computer player stands.
    pub closed spec fn spec_computer_player(&self) -> Position {
        self.computer_player
    }

    /// Where the target stands.
    pub closed spec fn spec_target(&self) -> Position {
        self.target
    }

    /// Where the human player stands, once it has been drawn.
    pub closed spec fn spec_human_player(&self) -> Option<Position> {
        self.human_player
    }

    /// Both agents stand on open cells, and not on the same one.
    pub open spec fn placed(&self) -> bool {
        &&& traversable(self.grid_view(), self.computer_player())
        &&& traversable(self.grid_view(), self.target())
        &&& self.computer_player() != self.target()
    }

    /// Reads the maze and puts the target and then the computer player on
    /// random free cells.
    ///
    /// Fails as `parse_maze` does; where the maze is good, the only failure
    /// is `PlacementExhausted`.
    pub fn new(maze_data: &str) -> (out: Result<MazeState, MazeError>)
        ensures
            match out {
                Ok(state) => {
                    &&& all_symbols(maze_rows(maze_data@))
                    &&& same_width(maze_rows(maze_data@))
                    &&& grid_matches(state.grid_view(), maze_rows(maze_data@))
                    &&& state.placed()
                    &&& state.human_player() is None
                },
                Err(MazeError::PlacementExhausted) => all_symbols(maze_rows(maze_data@))
                    && same_width(maze_rows(maze_data@)),
                Err(MazeError::InvalidGridSymbol(c)) => parse_result(
                    maze_data@,
                    Err(MazeError::InvalidGridSymbol(c)),
                ),
                Err(MazeError::InconsistentRowWidth { row, expected, found }) => parse_result(
                    maze_data@,
                    Err(MazeError::InconsistentRowWidth { row, expected, found }),
                ),
                Err(_) => false,
            },
    {
        let maze_grid = match parse_maze(maze_data) {
            Ok(grid) => grid,
            Err(e) => {
                return Err(e);
            },
        };
        let mut taken: Vec<Position> = Vec::new();
        let target = match place_agent(&maze_grid, &taken) {
            Ok(p) => p,
            Err(_) => {
                return Err(MazeError::PlacementExhausted);
            },
        };
        taken.push(target);
        let computer_player = match place_agent(&maze_grid, &taken) {
            Ok(p) => p,
            Err(_) => {
                return Err(MazeError::PlacementExhausted);
            },
        };
        proof {
            assert(taken@[0] == target);
        }
        Ok(MazeState { maze_grid, computer_player, target, human_player: None })
    }

    /// A session with the agents on the given cells.
    ///
    /// Fails with `InvalidEndpoint` for the computer player if its cell is
    /// not open, or else for the target if its cell is not open or is the
    /// computer player's.
    pub fn with_agents(maze_grid: Grid, computer_player: Position, target: Position) -> (out:
        Result<MazeState, MazeError>)
        ensures
            match out {
                Ok(state) => {
                    &&& state.grid_view() == maze_grid@
                    &&& state.computer_player() == computer_player
                    &&& state.target() == target
                    &&& state.human_player() is None
                    &&& state.placed()
                },
                Err(MazeError::InvalidEndpoint(p)) => {
                    ||| p == computer_player && !traversable(maze_grid@, computer_player)
                    ||| p == target && traversable(maze_grid@, computer_player) && (!traversable(
                        maze_grid@,
                        target,
                    ) || target == computer_player)
                },
                Err(_) => false,
            },
    {
        if !maze_grid.traversable(computer_player) {
            return Err(MazeError::InvalidEndpoint(computer_player));
        }
        if !maze_grid.traversable(target) || target == computer_player {
            return Err(MazeError::InvalidEndpoint(target));
        }
        Ok(MazeState { maze_grid, computer_player, target, human_player: None })
    }

    /// The grid of the maze.
    pub fn grid(&self) -> (g: &Grid)
        ensures
            g@ == self.grid_view(),
    {
        &self.maze_grid
    }

    /// Where the computer player stands.
    #[verifier::when_used_as_spec(spec_computer_player)]
    pub fn computer_player(&self) -> (p: Position)
        ensures
            p == self.spec_computer_player(),
    {
        self.computer_player
    }

    /// Where the target stands.
    #[verifier::when_used_as_spec(spec_target)]
    pub fn target(&self) -> (p: Position)
        ensures
            p == self.spec_target(),
    {
        self.target
    }

    /// Where the human player stands, once it has been drawn.
    #[verifier::when_used_as_spec(spec_human_player)]
    pub fn human_player(&self) -> (p: Option<Position>)
        ensures
            p == self.spec_human_player(),
    {
        self.human_player
    }

    /// Takes the human player off the maze and puts the target and then the
    /// computer player on new random cells. Returns what to paint: the
    /// walls, then the target, then the computer player.
    ///
    /// On failure the session stays as it was.
    pub fn reset(&mut self) -> (out: Result<Vec<Paint>, MazeError>)
        ensures
            final(self).grid_view() == old(self).grid_view(),
            match out {
                Ok(paints) => {
                    &&& final(self).placed()
                    &&& final(self).human_player() is None
                    &&& paints@.len() >= 2
                    &&& paints_walls(final(self).grid_view(), paints@.take(paints@.len() - 2))
                    &&& paints@[paints@.len() - 2] == (Paint {
                        pos: final(self).target(),
                        color: Color::Yellow,
                    })
                    &&& paints@[paints@.len() - 1] == (Paint {
                        pos: final(self).computer_player(),
                        color: Color::Red,
                    })
                },
                Err(e) => e is PlacementExhausted && *final(self) == *old(self),
            },
    {
        let mut taken: Vec<Position> = Vec::new();
        let target = match place_agent(&self.maze_grid, &taken) {
            Ok(p) => p,
            Err(_) => {
                return Err(MazeError::PlacementExhausted);
            },
        };
        taken.push(target);
        let computer_player = match place_agent(&self.maze_grid, &taken) {
            Ok(p) => p,
            Err(_) => {
                return Err(MazeError::PlacementExhausted);
            },
        };
        proof {
            assert(taken@[0] == target);
        }
        self.human_player = None;
        let mut paints = self.draw_maze();
        let ghost walls = paints@;
        let first = self.draw_player(target, PlayerType::Target);
        paints.push(first);
        let second = self.draw_player(computer_player, PlayerType::Computer);
        paints.push(second);
        proof {
            assert(paints@.take(paints@.len() - 2) == walls);
        }
        Ok(paints)
    }

    /// What to paint to show the bare maze: every wall in black, row by row.
    pub fn draw_maze(&self) -> (paints: Vec<Paint>)
        ensures
            paints_walls(self.grid_view(), paints@),
    {
        let rows = self.maze_grid.rows();
        let cols = self.maze_grid.cols();
        let ghost g = self.maze_grid@;
        let mut paints: Vec<Paint> = Vec::new();
        let mut row: usize = 0;
        while row < rows
            invariant
                row <= rows,
                rows == g.len(),
                cols == width(g),
                g == self.maze_grid@,
                forall|k: int|
                    0 <= k < paints@.len() ==> {
                        &&& in_bounds(g, (#[trigger] paints@[k]).pos)
                        &&& g[paints@[k].pos.row as int][paints@[k].pos.col as int]
                            == CellType::Wall
                        &&& paints@[k].color == Color::Black
                        &&& paints@[k].pos.row < row
                    },
                forall|i: int, j: int|
                    0 <= i < j < paints@.len() ==> reads_before(
                        (#[trigger] paints@[i]).pos,
                        (#[trigger] paints@[j]).pos,
                    ),
                forall|p: Position|
                    in_bounds(g, p) && g[p.row as int][p.col as int] == CellType::Wall && p.row
                        < row ==> paints@.contains(#[trigger] wall_paint(p)),
            decreases rows - row,
        {
            let mut col: usize = 0;
            while col < cols
                invariant
                    row < rows,
                    col <= cols,
                    rows == g.len(),
                    cols == width(g),
                    g == self.maze_grid@,
                    forall|k: int|
                        0 <= k < paints@.len() ==> {
                            &&& in_bounds(g, (#[trigger] paints@[k]).pos)
                            &&& g[paints@[k].pos.row as int][paints@[k].pos.col as int]
                                == CellType::Wall
                            &&& paints@[k].color == Color::Black
                            &&& (paints@[k].pos.row < row || (paints@[k].pos.row == row
                                && paints@[k].pos.col < col))
                        },
                    forall|i: int, j: int|
                        0 <= i < j < paints@.len() ==> reads_before(
                            (#[trigger] paints@[i]).pos,
                            (#[trigger] paints@[j]).pos,
                        ),
                    forall|p: Position|
                        in_bounds(g, p) && g[p.row as int][p.col as int] == CellType::Wall && (
                        p.row < row || (p.row == row && p.col < col)) ==> paints@.contains(
                            #[trigger] wall_paint(p),
                        ),
                decreases cols - col,
            {
                let p = Position { row, col };
                let ghost before = paints@;
                match self.maze_grid.cell(p) {
                    Some(CellType::Wall) => {
                        paints.push(Paint { pos: p, color: Color::Black });
                        proof {
                            assert(paints@[before.len() as int] == wall_paint(p));
                            assert forall|q: Position|
                                in_bounds(g, q) && g[q.row as int][q.col as int]
                                    == CellType::Wall && (q.row < row || (q.row == row && q.col
                                    < col + 1)) implies paints@.contains(
                                #[trigger] wall_paint(q),
                            ) by {
                                if q == p {
                                } else {
                                    assert(before.contains(wall_paint(q)));
                                    let k = choose|k: int|
                                        0 <= k < before.len() && before[k] == wall_paint(q);
                                    assert(paints@[k] == wall_paint(q));
                                }
                            }
                        }
                    },
                    _ => {},
                }
                col += 1;
            }
            row += 1;
        }
        paints
    }

    /// Draws a random free cell for an agent: an open cell on which neither
    /// the computer player nor the target stands.
    pub fn generate_random_target(&self) -> (out: Result<Position, MazeError>)
        ensures
            match out {
                Ok(p) => {
                    &&& traversable(self.grid_view(), p)
                    &&& p != self.computer_player()
                    &&& p != self.target()
                },
                Err(e) => e is PlacementExhausted,
            },
    {
        let mut taken: Vec<Position> = Vec::new();
        taken.push(self.computer_player);
        taken.push(self.target);
        let out = place_agent(&self.maze_grid, &taken);
        proof {
            assert(taken@[0] == self.computer_player);
            assert(taken@[1] == self.target);
        }
        out
    }

    /// Puts a player on the cell `pos` and returns what to paint: the cell in
    /// the player's colour.
    pub fn draw_player(&mut self, pos: Position, player_type: PlayerType) -> (paint: Paint)
        ensures
            paint == (Paint { pos, color: colour_of(player_type) }),
            final(self).grid_view() == old(self).grid_view(),
            final(self).computer_player() == if player_type == PlayerType::Computer {
                pos
            } else {
                old(self).computer_player()
            },
            final(self).target() == if player_type == PlayerType::Target {
                pos
            } else {
                old(self).target()
            },
            final(self).human_player() == if player_type == PlayerType::Human {
                Some(pos)
            } else {
                old(self).human_player()
            },
    {
        match player_type {
            PlayerType::Computer => {
                self.computer_player = pos;
                Paint { pos, color: Color::Red }
            },
            PlayerType::Human => {
                self.human_player = Some(pos);
                Paint { pos, color: Color::Blue }
            },
            PlayerType::Target => {
                self.target = pos;
                Paint { pos, color: Color::Yellow }
            },
        }
    }

    /// What to paint to colour the cell `pos`: the cell, if it is open.
    /// A wall, or a cell outside the grid, is left as it is.
    pub fn color_cell(&self, pos: Position, color: Color) -> (paint: Option<Paint>)
        ensures
            paint == if traversable(self.grid_view(), pos) {
                Some(Paint { pos, color })
            } else {
                None
            },
    {
        if self.maze_grid.traversable(pos) {
            Some(Paint { pos, color })
        } else {
            None
        }
    }

    /// What to paint when a search records the cell `pos`.
    pub fn mark_visited(&self, pos: Position) -> (paint: Option<Paint>)
        ensures
            paint == if traversable(self.grid_view(), pos) {
                Some(Paint { pos, color: Color::LightCoral })
            } else {
                None
            },
    {
        self.color_cell(pos, Color::LightCoral)
    }

    /// What to paint for a cell `pos` of the path that a search has found.
    pub fn mark_path(&self, pos: Position) -> (paint: Option<Paint>)
        ensures
            paint == if traversable(self.grid_view(), pos) {
                Some(Paint { pos, color: Color::Red })
            } else {
                None
            },
    {
        self.color_cell(pos, Color::Red)
    }

    /// Searches for a path from the computer player to the target with the
    /// given strategy.
    pub fn run_search(&self, algorithm: Algorithm) -> (out: Result<SearchOutcome, MazeError>)
        ensures
            answers(self.grid_view(), algorithm, self.computer_player(), self.target(), out),
    {
        match algorithm {
            Algorithm::Bfs => {
                let mut solver = BfsSolver;
                solver.find_path(self)
            },
            Algorithm::Dfs => {
                let mut solver = DfsSolver;
                solver.find_path(self)
            },
            Algorithm::BestFirst => {
                let mut solver = BestFirstSolver;
                solver.find_path(self)
            },
            Algorithm::AStar => {
                let mut solver = AstarSolver;
                solver.find_path(self)
            },
            Algorithm::Dijkstra => {
                let mut solver = DijkstraSolver;
                solver.find_path(self)
            },
        }
    }

    /// Searches for a path from the computer player to the target with the
    /// strategy of the given name.
    ///
    /// Fails with `UnknownAlgorithm`, before any search starts, exactly if
    /// no strategy goes by that name.
    pub fn find_path(&self, algorithm: &str) -> (out: Result<SearchOutcome, MazeError>)
        ensures
            match named(algorithm@) {
                Some(a) => answers(
                    self.grid_view(),
                    a,
                    self.computer_player(),
                    self.target(),
                    out,
                ),
                None => out matches Err(MazeError::UnknownAlgorithm(name)) && name@
                    == algorithm@,
            },
    {
        match algorithm_named(algorithm) {
            Some(a) => self.run_search(a),
            None => Err(MazeError::UnknownAlgorithm(algorithm.to_owned())),
        }
    }
}

} // verus!
