use hello_wasm::error::MazeError;
use hello_wasm::grid::{CellType, Position};
use hello_wasm::maze::{
    cell_is_free, place_agent, place_from, Color, MazeState, Paint, PlayerType, MAX_ATTEMPTS,
};
use hello_wasm::parse::parse_maze;
use hello_wasm::pathfinding::astar::AstarSolver;
use hello_wasm::pathfinding::best_first::BestFirstSolver;
use hello_wasm::pathfinding::bfs::BfsSolver;
use hello_wasm::pathfinding::dfs::DfsSolver;
use hello_wasm::pathfinding::dijkstra::DijkstraSolver;
use hello_wasm::pathfinding::model::Algorithm;

fn at(row: usize, col: usize) -> Position {
    Position { row, col }
}

const CROSS: &str = "* * *\n*   *\n* * *";

fn cross() -> MazeState {
    MazeState::with_agents(parse_maze(CROSS).unwrap(), at(1, 1), at(1, 3)).unwrap()
}

#[test]
fn new_session_places_both_agents_on_open_cells() {
    for _ in 0..20 {
        let state = MazeState::new("     \n     \n     \n     ").unwrap();
        assert!(state.grid().traversable(state.computer_player()));
        assert!(state.grid().traversable(state.target()));
        assert_ne!(state.computer_player(), state.target());
        assert_eq!(state.human_player(), None);
        assert_eq!(state.grid().rows(), 4);
        assert_eq!(state.grid().cols(), 5);
    }
}

#[test]
fn new_session_fails_on_bad_text() {
    assert_eq!(MazeState::new("* #").err(), Some(MazeError::InvalidGridSymbol('#')));
    assert_eq!(
        MazeState::new("* \n*").err(),
        Some(MazeError::InconsistentRowWidth { row: 1, expected: 2, found: 1 })
    );
}

#[test]
fn placement_gives_up_where_no_cell_is_free() {
    assert_eq!(MazeState::new("***\n***").err(), Some(MazeError::PlacementExhausted));
    assert_eq!(MazeState::new("").err(), Some(MazeError::PlacementExhausted));
    assert_eq!(MazeState::new(" ").err(), Some(MazeError::PlacementExhausted));
    let grid = parse_maze("  ").unwrap();
    assert_eq!(
        place_agent(&grid, &vec![at(0, 0), at(0, 1)]).err(),
        Some(MazeError::PlacementExhausted)
    );
    assert_eq!(MAX_ATTEMPTS, 50);
}

#[test]
fn placement_draws_cells_inside_the_grid() {
    let grid = parse_maze("   \n   ").unwrap();
    for _ in 0..100 {
        let p = place_agent(&grid, &Vec::new()).unwrap();
        assert!(p.row < 2 && p.col < 3);
    }
    let one = parse_maze(" ").unwrap();
    assert_eq!(place_agent(&one, &Vec::new()), Ok(at(0, 0)));
}

#[test]
fn placement_avoids_taken_cells_and_walls() {
    let grid = parse_maze("* \n  ").unwrap();
    for _ in 0..50 {
        if let Ok(p) = place_agent(&grid, &vec![at(0, 1), at(1, 0)]) {
            assert_eq!(p, at(1, 1));
        }
    }
    assert!(cell_is_free(&grid, &vec![at(0, 1)], at(1, 1)));
    assert!(!cell_is_free(&grid, &vec![at(0, 1)], at(0, 1)));
    assert!(!cell_is_free(&grid, &Vec::new(), at(0, 0)));
    assert!(!cell_is_free(&grid, &Vec::new(), at(2, 0)));
}

#[test]
fn random_target_avoids_both_agents() {
    let state = MazeState::with_agents(parse_maze("   ").unwrap(), at(0, 0), at(0, 2)).unwrap();
    for _ in 0..50 {
        if let Ok(p) = state.generate_random_target() {
            assert_eq!(p, at(0, 1));
        }
    }
}

#[test]
fn with_agents_checks_the_cells() {
    let grid = || parse_maze(CROSS).unwrap();
    assert_eq!(
        MazeState::with_agents(grid(), at(0, 0), at(1, 3)).err(),
        Some(MazeError::InvalidEndpoint(at(0, 0)))
    );
    assert_eq!(
        MazeState::with_agents(grid(), at(1, 1), at(2, 2)).err(),
        Some(MazeError::InvalidEndpoint(at(2, 2)))
    );
    assert_eq!(
        MazeState::with_agents(grid(), at(1, 1), at(1, 1)).err(),
        Some(MazeError::InvalidEndpoint(at(1, 1)))
    );
    let state = cross();
    assert_eq!(state.computer_player(), at(1, 1));
    assert_eq!(state.target(), at(1, 3));
}

#[test]
fn reset_places_the_agents_anew() {
    let mut state = cross();
    state.draw_player(at(0, 1), PlayerType::Human);
    let paints = state.reset().unwrap();
    assert!(state.grid().traversable(state.computer_player()));
    assert!(state.grid().traversable(state.target()));
    assert_ne!(state.computer_player(), state.target());
    assert_eq!(state.human_player(), None);
    assert_eq!(paints.len(), 8 + 2);
    assert_eq!(paints[8], Paint { pos: state.target(), color: Color::Yellow });
    assert_eq!(paints[9], Paint { pos: state.computer_player(), color: Color::Red });
    assert_eq!(&paints[..8], &state.draw_maze()[..]);
}

#[test]
fn draw_maze_paints_every_wall_once() {
    let state = cross();
    let paints = state.draw_maze();
    let want: Vec<Paint> = [(0, 0), (0, 2), (0, 4), (1, 0), (1, 4), (2, 0), (2, 2), (2, 4)]
        .iter()
        .map(|&(row, col)| Paint { pos: at(row, col), color: Color::Black })
        .collect();
    assert_eq!(paints, want);
}

#[test]
fn draw_player_moves_the_player() {
    let mut state = cross();
    assert_eq!(
        state.draw_player(at(0, 1), PlayerType::Computer),
        Paint { pos: at(0, 1), color: Color::Red }
    );
    assert_eq!(state.computer_player(), at(0, 1));
    assert_eq!(state.target(), at(1, 3));
    assert_eq!(
        state.draw_player(at(2, 3), PlayerType::Target),
        Paint { pos: at(2, 3), color: Color::Yellow }
    );
    assert_eq!(state.target(), at(2, 3));
    assert_eq!(
        state.draw_player(at(1, 2), PlayerType::Human),
        Paint { pos: at(1, 2), color: Color::Blue }
    );
    assert_eq!(state.human_player(), Some(at(1, 2)));
    assert_eq!(state.computer_player(), at(0, 1));
}

#[test]
fn colouring_a_wall_does_nothing() {
    let state = cross();
    assert_eq!(state.grid().cell(at(0, 0)), Some(CellType::Wall));
    assert_eq!(state.color_cell(at(0, 0), Color::Red), None);
    assert_eq!(state.color_cell(at(5, 5), Color::Red), None);
    assert_eq!(
        state.color_cell(at(1, 2), Color::Blue),
        Some(Paint { pos: at(1, 2), color: Color::Blue })
    );
    assert_eq!(state.mark_visited(at(0, 0)), None);
    assert_eq!(
        state.mark_visited(at(1, 2)),
        Some(Paint { pos: at(1, 2), color: Color::LightCoral })
    );
    assert_eq!(state.mark_visited(at(1, 2)), state.mark_visited(at(1, 2)));
    assert_eq!(state.mark_path(at(1, 2)), Some(Paint { pos: at(1, 2), color: Color::Red }));
    assert_eq!(state.mark_path(at(2, 2)), None);
}

#[test]
fn find_path_goes_by_name() {
    let state = cross();
    let want = vec![at(1, 1), at(1, 2), at(1, 3)];
    for name in ["BFS", "DFS", "BEST_FIRST", "GREEDY", "A_STAR", "DIJKSTRA"] {
        let out = state.find_path(name).unwrap();
        assert!(out.found, "{}", name);
        assert_eq!(out.start, at(1, 1));
        assert_eq!(out.goal, at(1, 3));
        assert_eq!(out.path, want, "{}", name);
    }
}

#[test]
fn find_path_rejects_unknown_names() {
    let state = cross();
    assert_eq!(
        state.find_path("FLOOD").err(),
        Some(MazeError::UnknownAlgorithm("FLOOD".to_string()))
    );
    assert_eq!(state.find_path("").err(), Some(MazeError::UnknownAlgorithm(String::new())));
    assert_eq!(
        state.find_path("bfs").err(),
        Some(MazeError::UnknownAlgorithm("bfs".to_string()))
    );
}

#[test]
fn solvers_search_the_session() {
    let state = cross();
    let want = vec![at(1, 1), at(1, 2), at(1, 3)];
    assert_eq!(BfsSolver.find_path(&state).unwrap().path, want);
    assert_eq!(DfsSolver.find_path(&state).unwrap().path, want);
    assert_eq!(BestFirstSolver.find_path(&state).unwrap().path, want);
    assert_eq!(AstarSolver.find_path(&state).unwrap().path, want);
    assert_eq!(DijkstraSolver.find_path(&state).unwrap().path, want);
    assert_eq!(state.run_search(Algorithm::Bfs).unwrap().path, want);
}

#[test]
fn a_moved_agent_on_a_wall_is_an_invalid_endpoint() {
    let mut state = cross();
    state.draw_player(at(0, 0), PlayerType::Computer);
    assert_eq!(state.find_path("BFS").err(), Some(MazeError::InvalidEndpoint(at(0, 0))));
    state.draw_player(at(1, 1), PlayerType::Computer);
    state.draw_player(at(2, 4), PlayerType::Target);
    assert_eq!(state.find_path("A_STAR").err(), Some(MazeError::InvalidEndpoint(at(2, 4))));
}

#[test]
fn place_from_takes_the_first_free_draw() {
    let grid = parse_maze("* \n  ").unwrap();
    let taken = vec![at(1, 0)];
    let draws = vec![at(0, 0), at(1, 0), at(5, 5), at(1, 1), at(0, 1)];
    assert_eq!(place_from(&grid, &taken, &draws), Ok(at(1, 1)));
    assert_eq!(place_from(&grid, &Vec::new(), &draws), Ok(at(1, 0)));
    assert_eq!(
        place_from(&grid, &taken, &vec![at(0, 0), at(1, 0)]),
        Err(MazeError::PlacementExhausted)
    );
    assert_eq!(place_from(&grid, &taken, &Vec::new()), Err(MazeError::PlacementExhausted));
}

#[test]
fn place_from_looks_at_fifty_draws_only() {
    let grid = parse_maze("* ").unwrap();
    let mut draws = vec![at(0, 0); 50];
    draws.push(at(0, 1));
    assert_eq!(place_from(&grid, &Vec::new(), &draws), Err(MazeError::PlacementExhausted));
    draws[49] = at(0, 1);
    assert_eq!(place_from(&grid, &Vec::new(), &draws), Ok(at(0, 1)));
}
