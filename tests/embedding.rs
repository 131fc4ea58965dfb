use game_of_life::cell::Cell;
use game_of_life::embedding::{
    engine_activate_cell, engine_alive_cells_iterator_free, engine_alive_cells_iterator_get,
    engine_alive_cells_iterator_next, engine_free, engine_generate_random_square, engine_new,
    engine_next, Embedding,
};

fn drain(table: &mut Embedding, cursor: usize) -> Vec<Cell> {
    let mut out = Vec::new();
    while let Some(c) = engine_alive_cells_iterator_next(table, cursor) {
        out.push(c);
    }
    out.sort();
    out
}

#[test]
fn handles_drive_an_engine() {
    let mut table = Embedding::new();
    let h = engine_new(&mut table, 10, 10);
    assert_ne!(h, 0);
    engine_activate_cell(&mut table, h, 4, 5);
    engine_activate_cell(&mut table, h, 5, 5);
    engine_activate_cell(&mut table, h, 6, 5);
    engine_activate_cell(&mut table, h, 60, 5);
    let cur = engine_alive_cells_iterator_get(&mut table, h);
    assert_ne!(cur, 0);
    assert_eq!(drain(&mut table, cur), vec![Cell::new(4, 5), Cell::new(5, 5), Cell::new(6, 5)]);
    assert_eq!(engine_alive_cells_iterator_next(&mut table, cur), None);
    engine_alive_cells_iterator_free(&mut table, cur);
    engine_alive_cells_iterator_free(&mut table, cur);
    engine_next(&mut table, h);
    let cur = engine_alive_cells_iterator_get(&mut table, h);
    assert_eq!(drain(&mut table, cur), vec![Cell::new(5, 4), Cell::new(5, 5), Cell::new(5, 6)]);
    engine_free(&mut table, h);
    engine_free(&mut table, h);
    assert_eq!(engine_alive_cells_iterator_get(&mut table, h), 0);
}

#[test]
fn null_and_freed_handles_are_ignored() {
    let mut table = Embedding::new();
    engine_next(&mut table, 0);
    engine_activate_cell(&mut table, 0, 1, 1);
    engine_generate_random_square(&mut table, 7, 0, 0, 3);
    engine_free(&mut table, 0);
    assert_eq!(engine_alive_cells_iterator_get(&mut table, 0), 0);
    assert_eq!(engine_alive_cells_iterator_next(&mut table, 0), None);
    assert_eq!(engine_alive_cells_iterator_next(&mut table, 3), None);
    engine_alive_cells_iterator_free(&mut table, 0);
}

#[test]
fn engines_behind_handles_are_independent() {
    let mut table = Embedding::new();
    let a = engine_new(&mut table, 10, 10);
    let b = engine_new(&mut table, 10, 10);
    assert_ne!(a, b);
    engine_activate_cell(&mut table, a, 1, 1);
    engine_generate_random_square(&mut table, b, 2, 2, 3);
    let ca = engine_alive_cells_iterator_get(&mut table, a);
    assert_eq!(drain(&mut table, ca), vec![Cell::new(1, 1)]);
    let cb = engine_alive_cells_iterator_get(&mut table, b);
    for c in drain(&mut table, cb) {
        assert!((2..5).contains(&c.x) && (2..5).contains(&c.y));
    }
}
