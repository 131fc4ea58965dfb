use game_of_life::cell::{get_neighbours, Cell};
use game_of_life::engine::Engine;

fn sorted(mut cells: Vec<Cell>) -> Vec<(u32, u32)> {
    cells.sort();
    cells.into_iter().map(|c| (c.x, c.y)).collect()
}

fn engine_with(cols: u32, rows: u32, cells: &[(u32, u32)]) -> Engine {
    let mut e = Engine::new(cols, rows);
    for &(x, y) in cells {
        e.activate_cell(x, y);
    }
    e
}

#[test]
fn corner_cell_has_three_neighbours() {
    let mut out = Vec::new();
    get_neighbours(5, 5, &Cell::new(0, 0), &mut out);
    assert_eq!(sorted(out.clone()), vec![(0, 1), (1, 0), (1, 1)]);
    for c in out {
        assert!(c.x < 5 && c.y < 5);
    }
    let mut small = Vec::new();
    get_neighbours(2, 2, &Cell::new(0, 0), &mut small);
    assert_eq!(small.len(), 3);
}

#[test]
fn interior_and_edge_neighbour_counts() {
    let mut out = vec![Cell::new(99, 99)];
    get_neighbours(10, 10, &Cell::new(5, 5), &mut out);
    assert_eq!(
        sorted(out),
        vec![(4, 4), (4, 5), (4, 6), (5, 4), (5, 6), (6, 4), (6, 5), (6, 6)]
    );
    let mut edge = Vec::new();
    get_neighbours(10, 10, &Cell::new(9, 4), &mut edge);
    assert_eq!(sorted(edge), vec![(8, 3), (8, 4), (8, 5), (9, 3), (9, 5)]);
    let e = Engine::new(10, 10);
    assert_eq!(sorted(e.neighbours_of(9, 9)), vec![(8, 8), (8, 9), (9, 8)]);
}

#[test]
fn cell_keys_round_trip() {
    let c = Cell::new(123_456, 4_000_000_000);
    assert_eq!(c.key(), 123_456u64 * 0x1_0000_0000 + 4_000_000_000);
    assert_eq!(Cell::from_key(c.key()), c);
    assert_eq!(Cell::from_key(0), Cell::new(0, 0));
    assert_eq!(Cell::from_key(u64::MAX), Cell::new(u32::MAX, u32::MAX));
}

#[test]
fn activation_fills_alive_and_frontier() {
    let mut e = Engine::new(10, 10);
    e.activate_cell(0, 0);
    assert!(e.is_alive(0, 0));
    assert!(!e.is_alive(1, 1));
    assert_eq!(e.alive_cells_count(), 1);
    assert_eq!(sorted(e.alive_cells()), vec![(0, 0)]);
    assert_eq!(sorted(e.frontier_cells()), vec![(0, 0), (0, 1), (1, 0), (1, 1)]);
    e.activate_cell(0, 0);
    assert_eq!(e.alive_cells_count(), 1);
}

#[test]
fn activation_outside_the_grid_does_nothing() {
    let mut e = Engine::new(10, 10);
    e.activate_cell(10, 3);
    e.activate_cell(3, 10);
    e.activate_cell(u32::MAX, u32::MAX);
    assert_eq!(e.alive_cells_count(), 0);
    assert!(e.frontier_cells().is_empty());
    assert_eq!((e.cols(), e.rows()), (10, 10));
}

#[test]
fn dead_cell_with_three_neighbours_is_born() {
    let mut e = engine_with(10, 10, &[(4, 4), (5, 4), (4, 5)]);
    e.next();
    assert!(e.is_alive(5, 5));
}

#[test]
fn live_cell_with_two_neighbours_survives() {
    let mut e = engine_with(10, 10, &[(4, 5), (5, 5), (6, 5)]);
    e.next();
    assert!(e.is_alive(5, 5));
}

#[test]
fn live_cell_with_three_neighbours_survives() {
    let mut e = engine_with(10, 10, &[(4, 4), (5, 4), (4, 5)]);
    e.next();
    assert!(e.is_alive(4, 4));
    assert!(e.is_alive(5, 4));
    assert!(e.is_alive(4, 5));
}

#[test]
fn lonely_cell_dies() {
    let mut e = engine_with(10, 10, &[(5, 5)]);
    e.next();
    assert!(!e.is_alive(5, 5));
    assert_eq!(e.alive_cells_count(), 0);
    assert_eq!(e.frontier_cells().len(), 9);
}

#[test]
fn crowded_cell_dies() {
    let mut e = engine_with(10, 10, &[(5, 5), (4, 5), (6, 5), (5, 4), (5, 6)]);
    e.next();
    assert!(!e.is_alive(5, 5));
}

#[test]
fn dead_cell_with_other_counts_stays_dead() {
    let mut e = engine_with(10, 10, &[(4, 5), (5, 5), (6, 5)]);
    e.next();
    assert!(!e.is_alive(4, 4));
    assert!(!e.is_alive(3, 5));
}

#[test]
fn block_settles_after_one_generation() {
    let block = [(5, 5), (6, 5), (5, 6), (6, 6)];
    let mut e = engine_with(20, 20, &block);
    assert_eq!(e.frontier_cells().len(), 16);
    e.next();
    assert_eq!(sorted(e.alive_cells()), vec![(5, 5), (5, 6), (6, 5), (6, 6)]);
    assert!(e.frontier_cells().is_empty());
}

#[test]
fn block_persists_for_fifty_generations() {
    let block = vec![(5, 5), (5, 6), (6, 5), (6, 6)];
    let mut e = engine_with(20, 20, &[(5, 5), (6, 5), (5, 6), (6, 6)]);
    for _ in 0..50 {
        e.next();
        assert_eq!(sorted(e.alive_cells()), block);
        assert!(e.frontier_cells().is_empty());
    }
}

#[test]
fn block_on_a_small_grid_persists() {
    let mut e = engine_with(6, 6, &[(2, 2), (3, 2), (2, 3), (3, 3)]);
    for _ in 0..50 {
        e.next();
        assert_eq!(sorted(e.alive_cells()), vec![(2, 2), (2, 3), (3, 2), (3, 3)]);
    }
}

#[test]
fn settled_block_evolves_after_a_nearby_activation() {
    let mut e = engine_with(8, 8, &[(2, 2), (3, 2), (2, 3), (3, 3)]);
    e.next();
    assert!(e.frontier_cells().is_empty());
    e.activate_cell(4, 2);
    assert!(e.is_in_frontier(3, 2));
    assert!(e.is_in_frontier(3, 3));
    e.next();
    assert_eq!(sorted(e.alive_cells()), vec![(2, 2), (2, 3), (3, 1), (4, 2), (4, 3)]);
    for c in [(2, 2), (3, 2), (2, 3), (3, 3)] {
        assert!(e.is_in_frontier(c.0, c.1));
    }
}

#[test]
fn live_cell_outside_the_frontier_keeps_its_state() {
    let mut e = engine_with(20, 20, &[(5, 5), (6, 5), (5, 6), (6, 6), (15, 15)]);
    e.next();
    assert!(e.is_alive(5, 5));
    assert!(!e.is_in_frontier(5, 5));
    assert!(!e.is_alive(15, 15));
    e.next();
    assert!(e.is_alive(5, 5));
    assert_eq!(e.alive_cells_count(), 4);
}

#[test]
fn blinker_alternates_for_ten_generations() {
    let horizontal = vec![(4, 5), (5, 5), (6, 5)];
    let vertical = vec![(5, 4), (5, 5), (5, 6)];
    let mut e = engine_with(11, 11, &horizontal);
    for generation in 1..=12 {
        e.next();
        let expected = if generation % 2 == 1 { &vertical } else { &horizontal };
        assert_eq!(&sorted(e.alive_cells()), expected);
    }
}

#[test]
fn blinker_in_a_corner_is_clipped() {
    let mut e = engine_with(3, 3, &[(0, 1), (1, 1), (2, 1)]);
    e.next();
    assert_eq!(sorted(e.alive_cells()), vec![(1, 0), (1, 1), (1, 2)]);
    e.next();
    assert_eq!(sorted(e.alive_cells()), vec![(0, 1), (1, 1), (2, 1)]);
    for c in e.frontier_cells() {
        assert!(c.x < 3 && c.y < 3);
    }
}

#[test]
fn activation_next_to_settled_block_wakes_its_neighbours() {
    let mut e = engine_with(20, 20, &[(5, 5), (6, 5), (5, 6), (6, 6)]);
    e.next();
    assert!(e.frontier_cells().is_empty());
    e.activate_cell(7, 5);
    assert!(e.is_in_frontier(6, 5));
    assert!(e.is_in_frontier(6, 6));
    assert!(e.is_in_frontier(7, 5));
    assert!(!e.is_in_frontier(5, 5));
}

#[test]
fn cells_stay_inside_the_grid() {
    let mut e = engine_with(4, 4, &[(0, 0), (1, 0), (0, 1), (3, 3), (2, 3), (3, 2), (1, 2)]);
    for _ in 0..8 {
        e.next();
        for c in e.alive_cells().into_iter().chain(e.frontier_cells()) {
            assert!(c.x < 4 && c.y < 4);
        }
    }
}
