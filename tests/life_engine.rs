use game_of_life::cell::Cell;
use game_of_life::life_engine::LifeEngine;
use game_of_life::workers::{AliveBuilder, FrontierBuilder, Message};

fn sorted(mut cells: Vec<Cell>) -> Vec<(u32, u32)> {
    cells.sort();
    cells.into_iter().map(|c| (c.x, c.y)).collect()
}

fn pattern() -> Vec<Cell> {
    // a glider, a blinker, a block, a cell outside the grid
    [(1, 0), (2, 1), (0, 2), (1, 2), (2, 2), (10, 10), (11, 10), (12, 10), (20, 3), (21, 3), (20, 4), (21, 4), (40, 40)]
        .iter()
        .map(|&(x, y)| Cell::new(x, y))
        .collect()
}

fn run_workers(e: &mut LifeEngine, alive: &mut AliveBuilder, frontier: &mut FrontierBuilder) {
    let (to_alive, to_frontier) = e.generation_messages();
    let mut alive_set = None;
    for m in to_alive {
        if let Some(s) = alive.handle(m) {
            alive_set = Some(s);
        }
    }
    let mut frontier_set = None;
    for m in to_frontier {
        if let Some(s) = frontier.handle(m) {
            frontier_set = Some(s);
        }
    }
    e.finish_generation(alive_set.unwrap(), frontier_set.unwrap());
}

#[test]
fn worker_mode_matches_single_threaded_mode() {
    let mut single = LifeEngine::with_initial_cells(30, 30, pattern());
    let mut pooled = LifeEngine::with_initial_cells(30, 30, pattern());
    let mut alive = AliveBuilder::new();
    let mut frontier = FrontierBuilder::new(30, 30);
    for _ in 0..25 {
        single.next();
        run_workers(&mut pooled, &mut alive, &mut frontier);
        assert_eq!(sorted(single.get_alive_cells()), sorted(pooled.get_alive_cells()));
        assert_eq!(sorted(single.get_frontier_cells()), sorted(pooled.get_frontier_cells()));
    }
    assert!(single.get_alive_cells_count() > 0);
}

#[test]
fn builders_driven_in_turn_match_single_threaded_mode() {
    let mut single = LifeEngine::with_initial_cells(30, 30, pattern());
    let mut driven = LifeEngine::with_initial_cells(30, 30, pattern());
    let mut alive = AliveBuilder::new();
    let mut frontier = FrontierBuilder::new(30, 30);
    for _ in 0..60 {
        single.next();
        driven.next_with_builders(&mut alive, &mut frontier);
        assert_eq!(sorted(single.get_alive_cells()), sorted(driven.get_alive_cells()));
        assert_eq!(sorted(single.get_frontier_cells()), sorted(driven.get_frontier_cells()));
    }
    // the block at (20, 3) is still there
    assert!(driven.is_alive(20, 3) && driven.is_alive(21, 4));
}

#[test]
fn repeated_runs_give_identical_sets() {
    let mut a = LifeEngine::with_initial_cells(30, 30, pattern());
    let mut b = LifeEngine::with_initial_cells(30, 30, pattern().into_iter().rev().collect());
    for _ in 0..10 {
        a.next();
        b.next();
    }
    assert_eq!(sorted(a.get_alive_cells()), sorted(b.get_alive_cells()));
    assert_eq!(sorted(a.get_frontier_cells()), sorted(b.get_frontier_cells()));
}

#[test]
fn builders_follow_the_protocol() {
    let mut alive = AliveBuilder::new();
    assert!(alive.handle(Message::Add(Cell::new(1, 1))).is_none());
    assert!(alive.handle(Message::Finish).is_none());
    assert!(alive.handle(Message::Start(4)).is_none());
    assert!(alive.handle(Message::Add(Cell::new(1, 1))).is_none());
    assert!(alive.handle(Message::Add(Cell::new(2, 3))).is_none());
    let set = alive.handle(Message::Finish).unwrap();
    assert_eq!(set.len(), 2);
    assert!(set.contains(&Cell::new(2, 3).key()));
    assert!(alive.handle(Message::Finish).is_none());

    let mut frontier = FrontierBuilder::new(5, 5);
    frontier.handle(Message::Start(0));
    frontier.handle(Message::Add(Cell::new(0, 0)));
    let set = frontier.handle(Message::Finish).unwrap();
    let mut cells: Vec<Cell> = set.iter().map(|&k| Cell::from_key(k)).collect();
    cells.sort();
    assert_eq!(cells, vec![Cell::new(0, 0), Cell::new(0, 1), Cell::new(1, 0), Cell::new(1, 1)]);
}

#[test]
fn initial_cells_outside_the_grid_are_skipped() {
    let e = LifeEngine::with_initial_cells(5, 5, vec![Cell::new(1, 1), Cell::new(5, 0), Cell::new(1, 1)]);
    assert_eq!(sorted(e.get_alive_cells()), vec![(1, 1)]);
    assert_eq!(e.get_frontier_cells().len(), 9);
}

#[test]
fn activate_cells_batch() {
    let mut e = LifeEngine::new(8, 8);
    e.activate_cells(vec![Cell::new(0, 0), Cell::new(7, 7), Cell::new(8, 1)]);
    assert_eq!(sorted(e.get_alive_cells()), vec![(0, 0), (7, 7)]);
    assert!(e.is_in_frontier(6, 6));
    assert!(e.is_in_frontier(1, 1));
    e.activate_cell(3, 3);
    assert!(e.is_alive(3, 3));
    assert_eq!((e.cols(), e.rows()), (8, 8));
}

#[test]
fn seeding_stays_inside_the_clipped_square() {
    for _ in 0..20 {
        let mut e = LifeEngine::new(50, 40);
        e.generate_random_square(Cell::new(10, 12), 5);
        let n = e.get_alive_cells_count();
        assert!(n < 25);
        for c in e.get_alive_cells() {
            assert!((10..15).contains(&c.x) && (12..17).contains(&c.y));
        }
        for c in e.get_frontier_cells() {
            assert!((9..16).contains(&c.x) && (11..18).contains(&c.y));
        }
    }
}

#[test]
fn seeding_is_clipped_at_the_grid_edge() {
    for _ in 0..20 {
        let mut e = LifeEngine::new(50, 40);
        e.activate_cell(0, 0);
        e.generate_random_square(Cell::new(47, 38), 10);
        assert!(e.get_alive_cells_count() <= 1 + 6);
        assert!(e.is_alive(0, 0));
        for c in e.get_alive_cells() {
            assert!(c == Cell::new(0, 0) || ((47..50).contains(&c.x) && (38..40).contains(&c.y)));
        }
    }
}

#[test]
fn seeding_draws_cells_eventually() {
    let mut total = 0;
    for _ in 0..50 {
        let mut e = LifeEngine::new(100, 100);
        e.generate_random_square(Cell::new(0, 0), 100);
        total += e.get_alive_cells_count();
    }
    assert!(total > 0);
}

#[test]
fn seeding_outside_or_empty_does_nothing() {
    let mut e = LifeEngine::new(50, 40);
    e.generate_random_square(Cell::new(50, 0), 5);
    e.generate_random_square(Cell::new(0, 40), 5);
    e.generate_random_square(Cell::new(3, 3), 0);
    assert_eq!(e.get_alive_cells_count(), 0);
    assert!(e.get_frontier_cells().is_empty());
}

#[test]
fn seed_square_activates_only_draws_inside_the_square() {
    let mut e = LifeEngine::new(20, 20);
    let draws = vec![Cell::new(3, 3), Cell::new(4, 5), Cell::new(3, 3), Cell::new(6, 3), Cell::new(2, 4), Cell::new(5, 9)];
    e.seed_square(Cell::new(3, 3), 3, &draws);
    assert_eq!(sorted(e.get_alive_cells()), vec![(3, 3), (4, 5)]);
    assert!(e.is_in_frontier(2, 2));
    assert!(e.is_in_frontier(5, 6));
    assert!(!e.is_in_frontier(7, 7));
}

#[test]
fn seed_square_is_clipped_and_ignores_an_outside_corner() {
    let mut e = LifeEngine::new(10, 10);
    e.seed_square(Cell::new(8, 8), 5, &vec![Cell::new(9, 9), Cell::new(10, 9), Cell::new(7, 8)]);
    assert_eq!(sorted(e.get_alive_cells()), vec![(9, 9)]);
    let mut f = LifeEngine::new(10, 10);
    f.seed_square(Cell::new(10, 0), 5, &vec![Cell::new(9, 0), Cell::new(10, 0)]);
    f.seed_square(Cell::new(1, 1), 0, &vec![Cell::new(1, 1)]);
    assert_eq!(f.get_alive_cells_count(), 0);
}
