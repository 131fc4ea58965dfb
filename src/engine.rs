//! The single-threaded engine.
use crate::cell::{Cell, cells_of, get_neighbours, in_bounds, key_of, neighbours};
use crate::cell_set::{contains_key, empty_key_set, insert_key, key_count, keys_of, KeySet};
use crate::generation::{advance, insert_with_neighbours, lemma_cells_of_empty};
use crate::rules::{
    all_in_bounds, frontier_complete, lemma_activation_keeps_frontier_complete, lemma_bounds_closed,
    lemma_cells_of_insert, lemma_complete_frontier_gives_life, lemma_empty_frontier_complete,
    lemma_step_keeps_frontier_complete, life, next_alive, next_frontier, touched,
};
use vstd::prelude::*;

verus! {

/// A Game of Life engine on a fixed `cols` by `rows` grid that evaluates only the
/// cells of its frontier in each generation.
#[derive(Debug)]
pub struct Engine {
    pub(crate) cols: u32,
    pub(crate) rows: u32,
    pub(crate) alive_cells: KeySet,
    pub(crate) potential_cells: KeySet,
}

impl Engine {
    pub closed spec fn spec_cols(&self) -> u32 {
        self.cols
    }

    pub closed spec fn spec_rows(&self) -> u32 {
        self.rows
    }

    /// The cells alive in the current generation.
    pub closed spec fn alive(&self) -> Set<Cell> {
        cells_of(self.alive_cells@)
    }

    /// The cells to evaluate in the next generation.
    pub closed spec fn frontier(&self) -> Set<Cell> {
        cells_of(self.potential_cells@)
    }

    /// How many cells are alive.
    pub closed spec fn alive_count(&self) -> nat {
        self.alive_cells@.len()
    }

    /// Both sets are finite and hold only cells inside the grid, and every cell
    /// that the rule would change lies in the frontier.
    pub closed spec fn wf(&self) -> bool {
        &&& frontier_complete(self.alive(), self.frontier(), self.cols, self.rows)
        &&& all_in_bounds(self.alive(), self.cols, self.rows)
        &&& all_in_bounds(self.frontier(), self.cols, self.rows)
        &&& self.alive_cells@.finite()
        &&& self.potential_cells@.finite()
    }

    /// What the views of this engine are made of.
    pub(crate) proof fn lemma_views(&self)
        ensures
            self.alive() == cells_of(self.alive_cells@),
            self.frontier() == cells_of(self.potential_cells@),
            self.spec_cols() == self.cols,
            self.spec_rows() == self.rows,
            self.alive_count() == self.alive_cells@.len(),
            self.wf() <==> {
                &&& frontier_complete(self.alive(), self.frontier(), self.cols, self.rows)
                &&& all_in_bounds(self.alive(), self.cols, self.rows)
                &&& all_in_bounds(self.frontier(), self.cols, self.rows)
                &&& self.alive_cells@.finite()
                &&& self.potential_cells@.finite()
            },
    {
    }

    /// Both sets stay inside the grid.
    pub proof fn lemma_in_bounds(&self)
        requires
            self.wf(),
        ensures
            forall|c: Cell| #[trigger]
                self.alive().contains(c) ==> in_bounds(c, self.spec_cols(), self.spec_rows()),
            forall|c: Cell| #[trigger]
                self.frontier().contains(c) ==> in_bounds(c, self.spec_cols(), self.spec_rows()),
    {
    }

    /// An engine with no live cell and an empty frontier.
    pub fn new(cols: u32, rows: u32) -> (r: Engine)
        ensures
            r.wf(),
            r.spec_cols() == cols,
            r.spec_rows() == rows,
            r.alive() == Set::<Cell>::empty(),
            r.frontier() == Set::<Cell>::empty(),
            r.alive_count() == 0,
    {
        proof {
            lemma_cells_of_empty();
            lemma_empty_frontier_complete(cols, rows);
        }
        Engine { cols, rows, alive_cells: empty_key_set(), potential_cells: empty_key_set() }
    }

    /// Brings `(x, y)` to life and puts it and its neighbours into the frontier;
    /// does nothing where `(x, y)` lies outside the grid.
    pub fn activate_cell(&mut self, x: u32, y: u32)
        requires
            old(self).wf(),
        ensures
            final(self).wf(),
            final(self).spec_cols() == old(self).spec_cols(),
            final(self).spec_rows() == old(self).spec_rows(),
            in_bounds(Cell { x, y }, old(self).spec_cols(), old(self).spec_rows()) ==> {
                &&& final(self).alive() == old(self).alive().insert(Cell { x, y })
                &&& final(self).frontier() == old(self).frontier().union(
                    touched(Cell { x, y }, old(self).spec_cols(), old(self).spec_rows()),
                )
            },
            !in_bounds(Cell { x, y }, old(self).spec_cols(), old(self).spec_rows()) ==> {
                &&& final(self).alive() == old(self).alive()
                &&& final(self).frontier() == old(self).frontier()
            },
            old(self).alive_count() <= final(self).alive_count() <= old(self).alive_count() + 1,
    {
        let cell = Cell::new(x, y);
        if self.is_cell_within_bounds(&cell) {
            let mut buf: Vec<Cell> = Vec::new();
            proof {
                lemma_cells_of_insert(self.alive_cells@, cell);
                crate::rules::lemma_touched_in_bounds(cell, self.cols, self.rows);
                lemma_activation_keeps_frontier_complete(
                    self.alive(),
                    self.frontier(),
                    cell,
                    self.cols,
                    self.rows,
                );
            }
            insert_key(&mut self.alive_cells, cell.key());
            insert_with_neighbours(&mut self.potential_cells, cell, self.cols, self.rows, &mut buf);
        }
    }

    /// Advances one generation: each frontier cell is evaluated against the
    /// current alive set, the live cells outside the frontier are kept, and both
    /// sets are replaced together. The result is Conway's successor on the grid.
    pub fn next(&mut self)
        requires
            old(self).wf(),
        ensures
            final(self).wf(),
            final(self).spec_cols() == old(self).spec_cols(),
            final(self).spec_rows() == old(self).spec_rows(),
            final(self).alive() == next_alive(
                old(self).alive(),
                old(self).frontier(),
                old(self).spec_cols(),
                old(self).spec_rows(),
            ),
            final(self).frontier() == next_frontier(
                old(self).alive(),
                old(self).frontier(),
                old(self).spec_cols(),
                old(self).spec_rows(),
            ),
            final(self).alive() == life(old(self).alive(), old(self).spec_cols(), old(self).spec_rows()),
    {
        let (alive_next, potential_next) = advance(
            &self.alive_cells,
            &self.potential_cells,
            self.cols,
            self.rows,
        );
        proof {
            lemma_bounds_closed(self.alive(), self.frontier(), self.cols, self.rows);
            lemma_step_keeps_frontier_complete(self.alive(), self.frontier(), self.cols, self.rows);
            lemma_complete_frontier_gives_life(self.alive(), self.frontier(), self.cols, self.rows);
        }
        self.alive_cells = alive_next;
        self.potential_cells = potential_next;
    }

    /// The neighbours of `cell` inside the grid.
    fn get_cell_neighbours(&self, cell: &Cell) -> (r: Vec<Cell>)
        ensures
            r@ == neighbours(*cell, self.cols, self.rows),
    {
        let mut r: Vec<Cell> = Vec::new();
        get_neighbours(self.cols, self.rows, cell, &mut r);
        r
    }

    fn is_cell_within_bounds(&self, cell: &Cell) -> (r: bool)
        ensures
            r == in_bounds(*cell, self.cols, self.rows),
    {
        cell.x < self.cols && cell.y < self.rows
    }

    /// The neighbours of the cell `(x, y)` inside this engine's grid.
    pub fn neighbours_of(&self, x: u32, y: u32) -> (r: Vec<Cell>)
        ensures
            r@ == neighbours(Cell { x, y }, self.spec_cols(), self.spec_rows()),
    {
        self.get_cell_neighbours(&Cell::new(x, y))
    }

    pub fn cols(&self) -> (r: u32)
        ensures
            r == self.spec_cols(),
    {
        self.cols
    }

    pub fn rows(&self) -> (r: u32)
        ensures
            r == self.spec_rows(),
    {
        self.rows
    }

    /// Whether `(x, y)` is alive.
    pub fn is_alive(&self, x: u32, y: u32) -> (r: bool)
        ensures
            r == self.alive().contains(Cell { x, y }),
    {
        contains_key(&self.alive_cells, Cell::new(x, y).key())
    }

    /// Whether `(x, y)` is in the frontier.
    pub fn is_in_frontier(&self, x: u32, y: u32) -> (r: bool)
        ensures
            r == self.frontier().contains(Cell { x, y }),
    {
        contains_key(&self.potential_cells, Cell::new(x, y).key())
    }

    /// The live cells, each once, in no particular order.
    pub fn alive_cells(&self) -> (r: Vec<Cell>)
        ensures
            r@.to_set() == self.alive(),
            r@.no_duplicates(),
    {
        cells_from_keys(&self.alive_cells)
    }

    /// The frontier cells, each once, in no particular order.
    pub fn frontier_cells(&self) -> (r: Vec<Cell>)
        ensures
            r@.to_set() == self.frontier(),
            r@.no_duplicates(),
    {
        cells_from_keys(&self.potential_cells)
    }

    /// How many cells are alive.
    pub fn alive_cells_count(&self) -> (r: usize)
        ensures
            r == self.alive_count(),
    {
        key_count(&self.alive_cells)
    }
}

/// The cells whose keys `keys` holds, each once.
pub(crate) fn cells_from_keys(keys: &KeySet) -> (r: Vec<Cell>)
    ensures
        r@.to_set() == cells_of(keys@),
        r@.no_duplicates(),
{
    let ks = keys_of(keys);
    let mut r: Vec<Cell> = Vec::new();
    let mut i: usize = 0;
    while i < ks.len()
        invariant
            i <= ks.len(),
            ks@.to_set() == keys@,
            ks@.no_duplicates(),
            r@.len() == i,
            forall|j: int| 0 <= j < i ==> key_of(#[trigger] r@[j]) == ks@[j],
        decreases ks.len() - i,
    {
        r.push(Cell::from_key(ks[i]));
        i = i + 1;
    }
    proof {
        assert forall|c: Cell| #[trigger] r@.to_set().contains(c) == cells_of(keys@).contains(c) by {
            if r@.contains(c) {
                let j = choose|j: int| 0 <= j < r@.len() && r@[j] == c;
                assert(ks@.contains(key_of(c)));
            }
            if keys@.contains(key_of(c)) {
                assert(ks@.to_set().contains(key_of(c)));
                let j = choose|j: int| 0 <= j < ks@.len() && ks@[j] == key_of(c);
                crate::cell::lemma_key_injective(r@[j], c);
                assert(r@[j] == c);
            }
        }
        assert(r@.to_set() =~= cells_of(keys@));
        assert forall|j: int, k: int| 0 <= j < r@.len() && 0 <= k < r@.len() && j != k implies r@[j]
            != r@[k] by {
            crate::cell::lemma_key_injective(r@[j], r@[k]);
        }
    }
    r
}

} // verus!
