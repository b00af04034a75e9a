use hello_wasm::conway_gol::{Cell, PatternError, Universe};

fn board(width: usize, height: usize, live: &[(usize, usize)]) -> Universe {
    let mut alive = vec![false; width * height];
    for &(row, col) in live {
        alive[row * width + col] = true;
    }
    Universe::new(width, height, &alive)
}

fn live_cells(u: &Universe) -> Vec<(usize, usize)> {
    let mut out = Vec::new();
    for (i, cell) in u.cells().iter().enumerate() {
        if *cell == Cell::Alive {
            out.push((i / u.width(), i % u.width()));
        }
    }
    out
}

#[test]
fn new_universe_takes_its_cells_from_the_list() {
    let u = Universe::new(3, 2, &vec![true, false, false, false, true]);
    assert_eq!(u.width(), 3);
    assert_eq!(u.height(), 2);
    assert_eq!(
        u.cells(),
        &vec![Cell::Alive, Cell::Dead, Cell::Dead, Cell::Dead, Cell::Alive, Cell::Dead]
    );
    assert_eq!(u.get_index(1, 2), 5);
    assert_eq!(u.changed_cells(), vec![0, 0, 0, 1, 0, 2, 1, 0, 1, 1, 1, 2]);
    let empty = Universe::new(0, 0, &Vec::new());
    assert!(empty.cells().is_empty());
    assert!(empty.changed_cells().is_empty());
}

#[test]
fn neighbours_are_counted_around_the_edges() {
    let u = board(4, 4, &[(0, 0)]);
    assert_eq!(u.live_neighbor_count(0, 0), 0);
    assert_eq!(u.live_neighbor_count(1, 1), 1);
    assert_eq!(u.live_neighbor_count(3, 3), 1);
    assert_eq!(u.live_neighbor_count(0, 3), 1);
    assert_eq!(u.live_neighbor_count(3, 0), 1);
    assert_eq!(u.live_neighbor_count(2, 2), 0);
    let full = Universe::new(3, 3, &vec![true; 9]);
    for row in 0..3 {
        for col in 0..3 {
            assert_eq!(full.live_neighbor_count(row, col), 8);
        }
    }
}

#[test]
fn a_single_cell_board_counts_itself() {
    // On a board of one cell every neighbour is the cell itself. The offsets
    // are (0, 0, 1) in both directions, and only pairs of two zeros are left out.
    let u = Universe::new(1, 1, &vec![true]);
    assert_eq!(u.live_neighbor_count(0, 0), 5);
}

#[test]
fn blinker_turns() {
    let mut u = board(5, 5, &[(2, 1), (2, 2), (2, 3)]);
    u.tick();
    assert_eq!(live_cells(&u), vec![(1, 2), (2, 2), (3, 2)]);
    u.tick();
    assert_eq!(live_cells(&u), vec![(2, 1), (2, 2), (2, 3)]);
}

#[test]
fn block_stays_and_lonely_cell_dies() {
    let mut u = board(6, 6, &[(1, 1), (1, 2), (2, 1), (2, 2), (4, 4)]);
    u.tick();
    assert_eq!(live_cells(&u), vec![(1, 1), (1, 2), (2, 1), (2, 2)]);
}

#[test]
fn crowded_cell_dies_and_three_neighbours_give_birth() {
    let mut u = board(5, 5, &[(1, 1), (1, 2), (1, 3), (2, 2), (3, 2)]);
    u.tick();
    // (2,2) has four live neighbours (the three above and the one below) and dies.
    // (3,2) has one and dies. (0,2) has three (the row below it) and is born.
    let now = live_cells(&u);
    assert!(!now.contains(&(2, 2)));
    assert!(!now.contains(&(3, 2)));
    assert!(now.contains(&(0, 2)));
    assert_eq!(now, vec![(0, 2), (1, 1), (1, 2), (1, 3)]);
}

#[test]
fn glider_crosses_the_edge() {
    let mut u = board(6, 6, &[(0, 1), (1, 2), (2, 0), (2, 1), (2, 2)]);
    for _ in 0..4 {
        u.tick();
    }
    // After four generations a glider has moved one cell down and right.
    assert_eq!(live_cells(&u), vec![(1, 2), (2, 3), (3, 1), (3, 2), (3, 3)]);
    for _ in 0..12 {
        u.tick();
    }
    // After sixteen it has moved four cells, and its lower right part has
    // come back in at the top and at the left.
    assert_eq!(live_cells(&u), vec![(0, 0), (0, 4), (0, 5), (4, 5), (5, 0)]);
}

#[test]
fn toggle_turns_a_cell_over() {
    let mut u = board(3, 3, &[]);
    u.toggle_cell(1, 2);
    assert_eq!(live_cells(&u), vec![(1, 2)]);
    u.toggle_cell(1, 2);
    assert_eq!(live_cells(&u), vec![]);
    assert_eq!(u.changed_cells().len(), 18);
}

#[test]
fn clear_kills_everything() {
    let mut u = Universe::new(3, 2, &vec![true; 6]);
    u.clear();
    assert_eq!(live_cells(&u), vec![]);
    assert_eq!(u.changed_cells(), vec![0, 0, 0, 1, 0, 2, 1, 0, 1, 1, 1, 2]);
    u.tick();
    assert_eq!(live_cells(&u), vec![]);
}

#[test]
fn patterns_are_put_down_at_each_position() {
    let glider = vec![0, 1, 1, 2, 2, 0, 2, 1, 2, 2];
    let mut u = Universe::new(8, 8, &vec![true; 64]);
    assert_eq!(u.load_multiple_patterns_flat(glider.clone(), 3, 3, vec![1, 1, 4, 5]), Ok(()));
    assert_eq!(
        live_cells(&u),
        vec![(1, 2), (2, 3), (3, 1), (3, 2), (3, 3), (4, 6), (5, 7), (6, 5), (6, 6), (6, 7)]
    );
    assert_eq!(u.changed_cells().len(), 128);
}

#[test]
fn patterns_are_cut_at_the_edge_and_skipped_outside() {
    let glider = vec![0, 1, 1, 2, 2, 0, 2, 1, 2, 2];
    let mut u = board(4, 4, &[(0, 0)]);
    assert_eq!(u.load_multiple_patterns_flat(glider.clone(), 3, 3, vec![2, 2, 4, 0, 0, 9]), Ok(()));
    assert_eq!(live_cells(&u), vec![(2, 3)]);
    assert_eq!(
        u.load_multiple_patterns_flat(vec![0, 0, usize::MAX, 1, 1, usize::MAX, 3], 1, 1, vec![1, 1]),
        Ok(())
    );
    assert_eq!(live_cells(&u), vec![(1, 1)]);
}

#[test]
fn a_position_without_column_is_an_error() {
    let mut u = board(4, 4, &[(3, 3)]);
    assert_eq!(
        u.load_multiple_patterns_flat(vec![0, 0], 1, 1, vec![1, 2, 3]),
        Err(PatternError::PlacementOutOfBounds)
    );
    assert_eq!(live_cells(&u), vec![(1, 2)]);
    assert_eq!(
        u.load_multiple_patterns_flat(vec![0, 0], 1, 1, vec![2]),
        Err(PatternError::PlacementOutOfBounds)
    );
    assert_eq!(live_cells(&u), vec![]);
    assert_eq!(u.load_multiple_patterns_flat(vec![0, 0], 1, 1, vec![]), Ok(()));
}
