use hello_wasm::error::MazeError;
use hello_wasm::grid::{CellType, Direction, Grid, Position};
use hello_wasm::parse::parse_maze;
use hello_wasm::pathfinding::astar::AstarSolver;
use hello_wasm::pathfinding::best_first::BestFirstSolver;
use hello_wasm::pathfinding::bfs::BfsSolver;
use hello_wasm::pathfinding::dfs::DfsSolver;
use hello_wasm::pathfinding::dijkstra::DijkstraSolver;
use hello_wasm::pathfinding::model::{Algorithm, Status};
use hello_wasm::pathfinding::search::{solve, Search, SearchOutcome, StepEvent};
use hello_wasm::pathfinding::{algorithm_named, heuristic, same_text, search_with, PathFindingAlgorithm};

fn at(row: usize, col: usize) -> Position {
    Position { row, col }
}

fn cells(list: &[(usize, usize)]) -> Vec<Position> {
    list.iter().map(|&(row, col)| at(row, col)).collect()
}

const ALL: [Algorithm; 5] = [
    Algorithm::Bfs,
    Algorithm::Dfs,
    Algorithm::BestFirst,
    Algorithm::AStar,
    Algorithm::Dijkstra,
];

const CROSS: &str = "* * *\n*   *\n* * *";

/// Hop counts from `start` to every cell, found by flooding the grid layer by layer.
fn flood(grid: &Grid, start: Position) -> Vec<Vec<Option<usize>>> {
    let mut dist = vec![vec![None; grid.cols()]; grid.rows()];
    if !grid.traversable(start) {
        return dist;
    }
    dist[start.row][start.col] = Some(0);
    let mut layer = vec![start];
    let mut d = 0;
    while !layer.is_empty() {
        d += 1;
        let mut next = Vec::new();
        for p in layer {
            for q in grid.neighbors4(p) {
                if grid.traversable(q) && dist[q.row][q.col].is_none() {
                    dist[q.row][q.col] = Some(d);
                    next.push(q);
                }
            }
        }
        layer = next;
    }
    dist
}

fn is_walk(grid: &Grid, path: &[Position]) -> bool {
    !path.is_empty()
        && path.iter().all(|&p| grid.traversable(p))
        && path.windows(2).all(|w| {
            let (a, b) = (w[0], w[1]);
            (a.row == b.row && a.col.abs_diff(b.col) == 1)
                || (a.col == b.col && a.row.abs_diff(b.row) == 1)
        })
}

#[test]
fn parse_reads_walls_and_paths() {
    let grid = parse_maze(CROSS).unwrap();
    assert_eq!(grid.rows(), 3);
    assert_eq!(grid.cols(), 5);
    assert_eq!(grid.cell(at(0, 0)), Some(CellType::Wall));
    assert_eq!(grid.cell(at(0, 1)), Some(CellType::Path));
    assert_eq!(grid.cell(at(1, 2)), Some(CellType::Path));
    assert_eq!(grid.cell(at(2, 4)), Some(CellType::Wall));
    assert_eq!(grid.cell(at(3, 0)), None);
    assert_eq!(grid.cell(at(0, 5)), None);
    assert_eq!(grid.cell_count(), 15);
}

#[test]
fn parse_rejects_unknown_symbol() {
    assert_eq!(parse_maze("* *\n*#*\n* *").err(), Some(MazeError::InvalidGridSymbol('#')));
}

#[test]
fn parse_reports_first_bad_symbol_in_reading_order() {
    assert_eq!(parse_maze("* *\n*a*\nb *").err(), Some(MazeError::InvalidGridSymbol('a')));
    assert_eq!(parse_maze("*x*y").err(), Some(MazeError::InvalidGridSymbol('x')));
}

#[test]
fn parse_prefers_bad_symbol_over_bad_width() {
    assert_eq!(parse_maze("**\n***\n*?*").err(), Some(MazeError::InvalidGridSymbol('?')));
}

#[test]
fn parse_rejects_rows_of_different_width() {
    assert_eq!(
        parse_maze("***\n***\n**\n*").err(),
        Some(MazeError::InconsistentRowWidth { row: 2, expected: 3, found: 2 })
    );
    assert_eq!(
        parse_maze("* \n*  ").err(),
        Some(MazeError::InconsistentRowWidth { row: 1, expected: 2, found: 3 })
    );
}

#[test]
fn parse_drops_blank_lines_and_carriage_returns() {
    let grid = parse_maze("* *\r\n\r\n* *\r\r\n\n\n").unwrap();
    assert_eq!(grid.rows(), 2);
    assert_eq!(grid.cols(), 3);
    assert_eq!(grid.cell(at(1, 1)), Some(CellType::Path));
}

#[test]
fn parse_rejects_carriage_return_inside_a_line() {
    assert_eq!(parse_maze("*\r*").err(), Some(MazeError::InvalidGridSymbol('\r')));
    assert_eq!(parse_maze("\t**").err(), Some(MazeError::InvalidGridSymbol('\t')));
}

#[test]
fn parse_keeps_rows_of_spaces() {
    let grid = parse_maze("     ").unwrap();
    assert_eq!(grid.rows(), 1);
    assert_eq!(grid.cols(), 5);
    for col in 0..5 {
        assert!(grid.traversable(at(0, col)));
    }
}

#[test]
fn parse_of_empty_text_is_an_empty_grid() {
    let grid = parse_maze("").unwrap();
    assert_eq!(grid.rows(), 0);
    assert_eq!(grid.cols(), 0);
    assert!(!grid.traversable(at(0, 0)));
    let grid = parse_maze("\n\r\n").unwrap();
    assert_eq!(grid.rows(), 0);
}

#[test]
fn grid_from_rows_needs_equal_widths() {
    let ragged = vec![vec![CellType::Path, CellType::Wall], vec![CellType::Path]];
    assert_eq!(Grid::from_rows(&ragged).err(), Some(1));
    let even = vec![vec![CellType::Path, CellType::Wall], vec![CellType::Wall, CellType::Path]];
    let grid = Grid::from_rows(&even).unwrap();
    assert_eq!(grid.rows(), 2);
    assert_eq!(grid.cols(), 2);
    assert_eq!(grid.cell(at(1, 1)), Some(CellType::Path));
    assert_eq!(grid.cell(at(1, 0)), Some(CellType::Wall));
    assert_eq!(grid.index_of(at(1, 1)), 3);
}

#[test]
fn traversable_means_inside_and_open() {
    let grid = parse_maze("* \n  ").unwrap();
    assert!(!grid.traversable(at(0, 0)));
    assert!(grid.traversable(at(0, 1)));
    assert!(grid.traversable(at(1, 0)));
    assert!(!grid.traversable(at(2, 0)));
    assert!(!grid.traversable(at(0, 2)));
    assert!(!grid.traversable(at(usize::MAX, usize::MAX)));
}

#[test]
fn neighbors_come_up_down_left_right_without_wrapping() {
    let grid = parse_maze("***\n***\n***").unwrap();
    assert_eq!(grid.neighbors4(at(1, 1)), cells(&[(0, 1), (2, 1), (1, 0), (1, 2)]));
    assert_eq!(grid.neighbors4(at(0, 0)), cells(&[(1, 0), (0, 1)]));
    assert_eq!(grid.neighbors4(at(2, 2)), cells(&[(1, 2), (2, 1)]));
    assert_eq!(grid.neighbors4(at(0, 2)), cells(&[(1, 2), (0, 1)]));
    assert_eq!(grid.neighbors4(at(3, 1)), cells(&[(2, 1)]));
    assert_eq!(grid.neighbors4(at(9, 9)), cells(&[]));
    assert_eq!(grid.neighbor(at(1, 1), Direction::Up), Some(at(0, 1)));
    assert_eq!(grid.neighbor(at(0, 1), Direction::Up), None);
    assert_eq!(grid.neighbor(at(1, 2), Direction::Right), None);
    assert_eq!(grid.neighbor(at(1, 0), Direction::Left), None);
    assert_eq!(grid.neighbor(at(2, 0), Direction::Down), None);
}

#[test]
fn heuristic_is_manhattan_distance() {
    assert_eq!(heuristic(&at(0, 0), &at(0, 0)), 0);
    assert_eq!(heuristic(&at(1, 2), &at(4, 6)), 7);
    assert_eq!(heuristic(&at(4, 6), &at(1, 2)), 7);
    assert_eq!(heuristic(&at(5, 1), &at(2, 3)), 5);
    assert_eq!(
        heuristic(&at(0, 0), &at(usize::MAX, usize::MAX)),
        2 * (usize::MAX as u128)
    );
}

#[test]
fn algorithm_names_are_a_closed_set() {
    assert_eq!(algorithm_named("BFS"), Some(Algorithm::Bfs));
    assert_eq!(algorithm_named("DFS"), Some(Algorithm::Dfs));
    assert_eq!(algorithm_named("BEST_FIRST"), Some(Algorithm::BestFirst));
    assert_eq!(algorithm_named("GREEDY"), Some(Algorithm::BestFirst));
    assert_eq!(algorithm_named("A_STAR"), Some(Algorithm::AStar));
    assert_eq!(algorithm_named("DIJKSTRA"), Some(Algorithm::Dijkstra));
    assert_eq!(algorithm_named("bfs"), None);
    assert_eq!(algorithm_named("BFS "), None);
    assert_eq!(algorithm_named(""), None);
    assert!(same_text("héllo", "héllo"));
    assert!(!same_text("héllo", "hello"));
    assert!(!same_text("ab", "abc"));
}

#[test]
fn bfs_finds_the_two_step_path_through_the_centre() {
    let grid = parse_maze(CROSS).unwrap();
    let out = PathFindingAlgorithm::find_path(&mut BfsSolver, &grid, at(1, 1), at(1, 3)).unwrap();
    assert!(out.found);
    assert_eq!(out.start, at(1, 1));
    assert_eq!(out.goal, at(1, 3));
    assert_eq!(out.path, cells(&[(1, 1), (1, 2), (1, 3)]));
    assert_eq!(out.path.len() - 1, 2);
    assert_eq!(out.visited, cells(&[(0, 1), (2, 1), (1, 2), (1, 3)]));
}

#[test]
fn dfs_finds_some_path_on_the_cross() {
    let grid = parse_maze(CROSS).unwrap();
    let out = PathFindingAlgorithm::find_path(&mut DfsSolver, &grid, at(1, 1), at(1, 3)).unwrap();
    assert!(out.found);
    assert!(out.path.len() - 1 >= 2);
    assert!(is_walk(&grid, &out.path));
    assert_eq!(out.path[0], at(1, 1));
    assert_eq!(*out.path.last().unwrap(), at(1, 3));
    assert_eq!(out.visited, cells(&[(0, 1), (2, 1), (1, 2), (1, 3)]));
}

#[test]
fn every_strategy_walks_the_corridor() {
    let grid = parse_maze("     ").unwrap();
    let want = cells(&[(0, 0), (0, 1), (0, 2), (0, 3), (0, 4)]);
    for algorithm in ALL {
        let out = search_with(&grid, algorithm, at(0, 0), at(0, 4)).unwrap();
        assert!(out.found, "{:?}", algorithm);
        assert_eq!(out.path, want, "{:?}", algorithm);
        assert_eq!(out.visited, cells(&[(0, 1), (0, 2), (0, 3), (0, 4)]), "{:?}", algorithm);
    }
    let mut solvers: Vec<Box<dyn FnMut(&Grid) -> Result<SearchOutcome, MazeError>>> = Vec::new();
    solvers.push(Box::new(|g| PathFindingAlgorithm::find_path(&mut BfsSolver, g, at(0, 0), at(0, 4))));
    solvers.push(Box::new(|g| PathFindingAlgorithm::find_path(&mut DfsSolver, g, at(0, 0), at(0, 4))));
    solvers.push(Box::new(|g| PathFindingAlgorithm::find_path(&mut BestFirstSolver, g, at(0, 0), at(0, 4))));
    solvers.push(Box::new(|g| PathFindingAlgorithm::find_path(&mut AstarSolver, g, at(0, 0), at(0, 4))));
    solvers.push(Box::new(|g| PathFindingAlgorithm::find_path(&mut DijkstraSolver, g, at(0, 0), at(0, 4))));
    for solver in solvers.iter_mut() {
        assert_eq!(solver(&grid).unwrap().path, want);
    }
}

#[test]
fn start_equal_to_goal_is_found_at_once() {
    let grid = parse_maze(CROSS).unwrap();
    for algorithm in ALL {
        let out = solve(&grid, algorithm, at(1, 2), at(1, 2)).unwrap();
        assert!(out.found);
        assert_eq!(out.path, cells(&[(1, 2)]));
        assert!(out.visited.is_empty());
    }
}

#[test]
fn bfs_records_cells_layer_by_layer() {
    let grid = parse_maze("   \n   \n   ").unwrap();
    let out = solve(&grid, Algorithm::Bfs, at(0, 0), at(2, 2)).unwrap();
    assert_eq!(
        out.visited,
        cells(&[(1, 0), (0, 1), (2, 0), (1, 1), (0, 2), (2, 1), (1, 2), (2, 2)])
    );
    assert_eq!(out.path, cells(&[(0, 0), (1, 0), (2, 0), (2, 1), (2, 2)]));
}

#[test]
fn dfs_follows_the_newest_cell() {
    let grid = parse_maze("   \n   \n   ").unwrap();
    let out = solve(&grid, Algorithm::Dfs, at(0, 0), at(2, 2)).unwrap();
    assert_eq!(out.visited, cells(&[(1, 0), (0, 1), (1, 1), (0, 2), (1, 2), (2, 2)]));
    assert_eq!(out.path, cells(&[(0, 0), (0, 1), (0, 2), (1, 2), (2, 2)]));
}

#[test]
fn priority_ties_go_to_the_lower_column_then_the_lower_row() {
    let grid = parse_maze("   \n   \n   ").unwrap();
    let out = solve(&grid, Algorithm::Dijkstra, at(1, 1), at(2, 2)).unwrap();
    // All four neighbours of the centre cost 1: (1,0) goes first (column 0),
    // then (0,1) before (2,1) (column 1, rows 0 and 2), then (1,2).
    assert_eq!(
        out.visited,
        cells(&[(0, 1), (2, 1), (1, 0), (1, 2), (0, 0), (2, 0), (0, 2), (2, 2)])
    );
    assert_eq!(out.path, cells(&[(1, 1), (2, 1), (2, 2)]));
}

#[test]
fn best_first_heads_for_the_goal() {
    let grid = parse_maze("    \n    ").unwrap();
    let out = solve(&grid, Algorithm::BestFirst, at(0, 0), at(0, 3)).unwrap();
    assert_eq!(out.visited, cells(&[(1, 0), (0, 1), (1, 1), (0, 2), (1, 2), (0, 3)]));
    assert_eq!(out.path, cells(&[(0, 0), (0, 1), (0, 2), (0, 3)]));
}

#[test]
fn astar_adds_the_cost_so_far_to_the_estimate() {
    let grid = parse_maze("    \n    ").unwrap();
    // From (0,0): (1,0) gets key 1 + 4 and (0,1) key 1 + 2; the top row
    // keeps key 3 all the way, so the bottom row is recorded but never expanded.
    let out = solve(&grid, Algorithm::AStar, at(0, 0), at(0, 3)).unwrap();
    assert_eq!(out.visited, cells(&[(1, 0), (0, 1), (1, 1), (0, 2), (1, 2), (0, 3)]));
    assert_eq!(out.path, cells(&[(0, 0), (0, 1), (0, 2), (0, 3)]));
    // Dijkstra, with keys 1, 1, 2, 2, ..., expands (1,0) before (0,1):
    // both have key 1, and column 0 goes before column 1.
    let out = solve(&grid, Algorithm::Dijkstra, at(0, 0), at(0, 3)).unwrap();
    assert_eq!(
        out.visited,
        cells(&[(1, 0), (0, 1), (1, 1), (0, 2), (1, 2), (0, 3), (1, 3)])
    );
    assert_eq!(out.path, cells(&[(0, 0), (0, 1), (0, 2), (0, 3)]));
}

#[test]
fn astar_expands_fewer_cells_than_dijkstra() {
    let grid = parse_maze("     \n     \n     ").unwrap();
    let a = solve(&grid, Algorithm::AStar, at(1, 0), at(1, 4)).unwrap();
    let d = solve(&grid, Algorithm::Dijkstra, at(1, 0), at(1, 4)).unwrap();
    assert_eq!(a.path.len(), 5);
    assert_eq!(d.path.len(), 5);
    assert!(a.visited.len() < d.visited.len());
    assert_eq!(a.path, cells(&[(1, 0), (1, 1), (1, 2), (1, 3), (1, 4)]));
}

#[test]
fn walls_are_never_recorded() {
    let text = "  *  \n *  *\n   * \n**   \n   * ";
    let grid = parse_maze(text).unwrap();
    for algorithm in ALL {
        for goal in [at(4, 4), at(0, 4), at(4, 0)] {
            let out = solve(&grid, algorithm, at(0, 0), goal).unwrap();
            for p in out.visited.iter().chain(out.path.iter()) {
                assert_eq!(grid.cell(*p), Some(CellType::Path));
            }
            let mut search = Search::new(&grid, algorithm, at(0, 0), goal).unwrap();
            while search.status() == Status::Running {
                search.step();
            }
            for row in 0..grid.rows() {
                for col in 0..grid.cols() {
                    if let Ok(path) = search.path_to(at(row, col)) {
                        assert!(is_walk(&grid, &path));
                        assert_eq!(path[0], at(0, 0));
                    }
                }
            }
        }
    }
}

#[test]
fn optimal_strategies_match_a_flood_fill() {
    let mazes = [
        "  *  \n *  *\n   * \n**   \n   * ",
        "     \n *** \n *   \n * **\n     ",
        "   *   \n * * * \n *   * \n ***** \n       ",
        CROSS,
    ];
    for text in mazes {
        let grid = parse_maze(text).unwrap();
        for sr in 0..grid.rows() {
            for sc in 0..grid.cols() {
                let start = at(sr, sc);
                if !grid.traversable(start) {
                    continue;
                }
                let dist = flood(&grid, start);
                for gr in 0..grid.rows() {
                    for gc in 0..grid.cols() {
                        let goal = at(gr, gc);
                        if !grid.traversable(goal) {
                            continue;
                        }
                        for algorithm in ALL {
                            let out = solve(&grid, algorithm, start, goal).unwrap();
                            assert_eq!(out.found, dist[gr][gc].is_some());
                            if out.found {
                                assert!(is_walk(&grid, &out.path));
                                assert_eq!(out.path[0], start);
                                assert_eq!(*out.path.last().unwrap(), goal);
                            } else {
                                assert!(out.path.is_empty());
                            }
                        }
                        if let Some(d) = dist[gr][gc] {
                            let b = solve(&grid, Algorithm::Bfs, start, goal).unwrap();
                            let a = solve(&grid, Algorithm::AStar, start, goal).unwrap();
                            let k = solve(&grid, Algorithm::Dijkstra, start, goal).unwrap();
                            assert_eq!(b.path.len() - 1, d);
                            assert_eq!(a.path.len() - 1, d);
                            assert_eq!(k.path.len() - 1, d);
                            assert_eq!(a.path.len(), k.path.len());
                        }
                    }
                }
            }
        }
    }
}

#[test]
fn running_twice_gives_the_same_report() {
    let grid = parse_maze("  *  \n *  *\n   * \n**   \n   * ").unwrap();
    for algorithm in ALL {
        let one = solve(&grid, algorithm, at(0, 0), at(4, 2)).unwrap();
        let two = solve(&grid, algorithm, at(0, 0), at(4, 2)).unwrap();
        assert_eq!(one.found, two.found);
        assert_eq!(one.path, two.path);
        assert_eq!(one.visited, two.visited);
        assert!(one.found);
    }
}

#[test]
fn unreachable_goal_is_reported_with_the_whole_component() {
    let grid = parse_maze("  * \n  * \n*** ").unwrap();
    for algorithm in ALL {
        let out = solve(&grid, algorithm, at(0, 0), at(0, 3)).unwrap();
        assert!(!out.found);
        assert!(out.path.is_empty());
        assert_eq!(out.start, at(0, 0));
        assert_eq!(out.goal, at(0, 3));
        let mut seen = out.visited.clone();
        seen.push(at(0, 0));
        seen.sort_by_key(|p| (p.row, p.col));
        seen.dedup();
        assert_eq!(seen, cells(&[(0, 0), (0, 1), (1, 0), (1, 1)]));
    }
}

#[test]
fn endpoints_on_walls_are_rejected() {
    let grid = parse_maze(CROSS).unwrap();
    for algorithm in ALL {
        assert_eq!(
            solve(&grid, algorithm, at(0, 0), at(1, 3)).err(),
            Some(MazeError::InvalidEndpoint(at(0, 0)))
        );
        assert_eq!(
            solve(&grid, algorithm, at(1, 1), at(2, 2)).err(),
            Some(MazeError::InvalidEndpoint(at(2, 2)))
        );
        assert_eq!(
            solve(&grid, algorithm, at(0, 0), at(2, 2)).err(),
            Some(MazeError::InvalidEndpoint(at(0, 0)))
        );
        assert_eq!(
            solve(&grid, algorithm, at(1, 1), at(7, 1)).err(),
            Some(MazeError::InvalidEndpoint(at(7, 1)))
        );
    }
    assert!(Search::new(&grid, Algorithm::Bfs, at(0, 0), at(1, 1)).is_err());
}

#[test]
fn a_search_can_be_stepped() {
    let grid = parse_maze(CROSS).unwrap();
    let mut search = Search::new(&grid, Algorithm::Bfs, at(1, 1), at(1, 3)).unwrap();
    assert_eq!(search.status(), Status::Running);
    assert!(search.visits().is_empty());
    assert_eq!(search.path_to(at(1, 1)).unwrap(), cells(&[(1, 1)]));
    assert_eq!(search.path_to(at(1, 2)).err(), Some(MazeError::UnreachablePath(at(1, 2))));
    assert_eq!(search.path_to(at(9, 9)).err(), Some(MazeError::UnreachablePath(at(9, 9))));
    match search.step() {
        StepEvent::Visited(hits) => assert_eq!(hits, cells(&[(0, 1), (2, 1), (1, 2)])),
        other => panic!("{:?}", other),
    }
    assert_eq!(search.path_to(at(1, 2)).unwrap(), cells(&[(1, 1), (1, 2)]));
    assert_eq!(search.path_to(at(0, 0)).err(), Some(MazeError::UnreachablePath(at(0, 0))));
    match search.step() {
        StepEvent::Visited(hits) => assert!(hits.is_empty()),
        other => panic!("{:?}", other),
    }
    match search.step() {
        StepEvent::Visited(hits) => assert!(hits.is_empty()),
        other => panic!("{:?}", other),
    }
    match search.step() {
        StepEvent::Visited(hits) => assert_eq!(hits, cells(&[(1, 3)])),
        other => panic!("{:?}", other),
    }
    assert_eq!(search.status(), Status::Running);
    match search.step() {
        StepEvent::Found(path) => assert_eq!(path, cells(&[(1, 1), (1, 2), (1, 3)])),
        other => panic!("{:?}", other),
    }
    assert_eq!(search.status(), Status::Found);
    match search.step() {
        StepEvent::Found(path) => assert_eq!(path, cells(&[(1, 1), (1, 2), (1, 3)])),
        other => panic!("{:?}", other),
    }
    assert_eq!(search.visits(), &cells(&[(0, 1), (2, 1), (1, 2), (1, 3)]));
    let out = search.finish();
    assert!(out.found);
    assert_eq!(out.path, cells(&[(1, 1), (1, 2), (1, 3)]));
}

#[test]
fn a_stepped_search_can_run_dry() {
    let grid = parse_maze(" * ").unwrap();
    let mut search = Search::new(&grid, Algorithm::AStar, at(0, 0), at(0, 2)).unwrap();
    match search.step() {
        StepEvent::Visited(hits) => assert!(hits.is_empty()),
        other => panic!("{:?}", other),
    }
    assert!(matches!(search.step(), StepEvent::Exhausted));
    assert_eq!(search.status(), Status::Exhausted);
    assert!(matches!(search.step(), StepEvent::Exhausted));
    let out = search.finish();
    assert!(!out.found);
    assert!(out.path.is_empty());
    assert!(out.visited.is_empty());
}

#[test]
fn a_search_can_be_called_off_and_taken_up_again() {
    let grid = parse_maze("     \n     \n     ").unwrap();
    let whole = solve(&grid, Algorithm::Bfs, at(0, 0), at(2, 4)).unwrap();
    let mut search = Search::new(&grid, Algorithm::Bfs, at(0, 0), at(2, 4)).unwrap();
    assert_eq!(search.advance(0), Status::Running);
    assert!(search.visits().is_empty());
    assert_eq!(search.advance(3), Status::Running);
    let so_far = search.visits().clone();
    assert!(!so_far.is_empty());
    assert_eq!(so_far[..], whole.visited[..so_far.len()]);
    assert_eq!(search.advance(1000), Status::Found);
    assert_eq!(search.advance(5), Status::Found);
    assert_eq!(search.visits(), &whole.visited);
    assert_eq!(search.finish().path, whole.path);
}
