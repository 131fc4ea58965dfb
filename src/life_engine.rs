//! The engine with batch activation, random seeding and the coordinator's side of
//! the worker-pool mode.
use crate::cell::{Cell, cell_of, cells_of, in_bounds, key_of};
use crate::cell_set::{contains_key, key_count, keys_of, KeySet};
use crate::engine::Engine;
use crate::rules::{
    kept_alive, lemma_bounds_closed, lemma_complete_frontier_gives_life,
    lemma_step_keeps_frontier_complete, life, lemma_with_neighbours_insert, next_alive,
    next_frontier, touched, with_neighbours,
};
use crate::workers::{
    adds_of, alive_adds, feed_alive, feed_frontier, frontier_adds, lemma_workers_match_step,
    run_alive_builder, run_frontier_builder, AliveBuilder, FrontierBuilder, Message,
};
use vstd::prelude::*;

verus! {

/// Relies on `rand::random_range`, which draws uniformly from `lo..hi` with the
/// thread's generator and panics only on an empty range.
#[verifier::external_body]
fn random_in_range(lo: u64, hi: u64) -> (r: u64)
    requires
        lo < hi,
    ensures
        lo <= r < hi,
{
    rand::random_range(lo..hi)
}

/// The cells of `cells` that lie inside the grid.
pub open spec fn valid_cells(cells: Seq<Cell>, cols: u32, rows: u32) -> Set<Cell> {
    Set::new(|c: Cell| cells.contains(c) && in_bounds(c, cols, rows))
}

/// The last column of the square seeded from `top_left` with side `size`, clipped
/// to the grid, plus one.
pub open spec fn square_x_end(top_left: Cell, size: u32, cols: u32) -> int {
    if top_left.x + size <= cols {
        top_left.x + size
    } else {
        cols as int
    }
}

pub open spec fn square_y_end(top_left: Cell, size: u32, rows: u32) -> int {
    if top_left.y + size <= rows {
        top_left.y + size
    } else {
        rows as int
    }
}

/// `c` lies in the square seeded from `top_left` with side `size`, clipped to the grid.
pub open spec fn in_square(c: Cell, top_left: Cell, size: u32, cols: u32, rows: u32) -> bool {
    &&& top_left.x <= c.x < square_x_end(top_left, size, cols)
    &&& top_left.y <= c.y < square_y_end(top_left, size, rows)
}

/// The number of cells of that clipped square.
pub open spec fn square_area(top_left: Cell, size: u32, cols: u32, rows: u32) -> int {
    (square_x_end(top_left, size, cols) - top_left.x) * (square_y_end(top_left, size, rows)
        - top_left.y)
}

/// The cells of `draws` that lie in the clipped square.
pub open spec fn drawn_in_square(
    draws: Seq<Cell>,
    top_left: Cell,
    size: u32,
    cols: u32,
    rows: u32,
) -> Set<Cell> {
    Set::new(|c: Cell| draws.contains(c) && in_square(c, top_left, size, cols, rows))
}

/// `alive2` and `frontier2` come from `alive` and `frontier` by seeding some
/// draws into the clipped square: each draw lies in the square, and where the
/// square is not empty there are fewer draws than its area.
pub open spec fn seeded_by_draws(
    alive: Set<Cell>,
    frontier: Set<Cell>,
    alive2: Set<Cell>,
    frontier2: Set<Cell>,
    top_left: Cell,
    size: u32,
    cols: u32,
    rows: u32,
) -> bool {
    exists|draws: Seq<Cell>|
        {
            &&& in_bounds(top_left, cols, rows) && size > 0 ==> draws.len() < square_area(
                top_left,
                size,
                cols,
                rows,
            )
            &&& forall|i: int|
                0 <= i < draws.len() ==> in_square(#[trigger] draws[i], top_left, size, cols, rows)
            &&& alive2 == alive.union(drawn_in_square(draws, top_left, size, cols, rows))
            &&& frontier2 == frontier.union(
                with_neighbours(drawn_in_square(draws, top_left, size, cols, rows), cols, rows),
            )
        }
}

/// One past the last coordinate of a square side from `start` with length `size`,
/// clipped to `limit`.
fn square_end(start: u32, size: u32, limit: u32) -> (r: u64)
    ensures
        r == if start + size <= limit {
            start + size
        } else {
            limit as int
        },
{
    if start as u64 + size as u64 <= limit as u64 {
        start as u64 + size as u64
    } else {
        limit as u64
    }
}

/// A Game of Life engine that can also run its generations through two builder
/// workers (see `workers`).
#[derive(Debug)]
pub struct LifeEngine {
    engine: Engine,
}

impl LifeEngine {
    pub closed spec fn spec_cols(&self) -> u32 {
        self.engine.spec_cols()
    }

    pub closed spec fn spec_rows(&self) -> u32 {
        self.engine.spec_rows()
    }

    /// The cells alive in the current generation.
    pub closed spec fn alive(&self) -> Set<Cell> {
        self.engine.alive()
    }

    /// The cells to evaluate in the next generation.
    pub closed spec fn frontier(&self) -> Set<Cell> {
        self.engine.frontier()
    }

    /// How many cells are alive.
    pub closed spec fn alive_count(&self) -> nat {
        self.engine.alive_count()
    }

    pub closed spec fn wf(&self) -> bool {
        self.engine.wf()
    }

    /// Both sets stay inside the grid.
    pub proof fn lemma_in_bounds(&self)
        requires
            self.wf(),
        ensures
            forall|c: Cell| #[trigger]
                self.alive().contains(c) ==> in_bounds(c, self.spec_cols(), self.spec_rows()),
            forall|c: Cell| #[trigger]
                self.frontier().contains(c) ==> in_bounds(c, self.spec_cols(), self.spec_rows()),
    {
        self.engine.lemma_in_bounds();
    }

    /// An engine with no live cell and an empty frontier.
    pub fn new(cols: u32, rows: u32) -> (r: LifeEngine)
        ensures
            r.wf(),
            r.spec_cols() == cols,
            r.spec_rows() == rows,
            r.alive() == Set::<Cell>::empty(),
            r.frontier() == Set::<Cell>::empty(),
    {
        LifeEngine { engine: Engine::new(cols, rows) }
    }

    /// An engine whose live cells are those of `initial_cells` inside the grid.
    pub fn with_initial_cells(cols: u32, rows: u32, initial_cells: Vec<Cell>) -> (r: LifeEngine)
        ensures
            r.wf(),
            r.spec_cols() == cols,
            r.spec_rows() == rows,
            r.alive() == valid_cells(initial_cells@, cols, rows),
            r.frontier() == with_neighbours(valid_cells(initial_cells@, cols, rows), cols, rows),
    {
        let mut r = LifeEngine::new(cols, rows);
        r.activate_cells(initial_cells);
        proof {
            assert(Set::<Cell>::empty().union(valid_cells(initial_cells@, cols, rows))
                =~= valid_cells(initial_cells@, cols, rows));
            assert(Set::<Cell>::empty().union(
                with_neighbours(valid_cells(initial_cells@, cols, rows), cols, rows),
            ) =~= with_neighbours(valid_cells(initial_cells@, cols, rows), cols, rows));
        }
        r
    }

    /// Activates each cell of `cells` as `activate_cell` does.
    pub fn activate_cells(&mut self, cells: Vec<Cell>)
        requires
            old(self).wf(),
        ensures
            final(self).wf(),
            final(self).spec_cols() == old(self).spec_cols(),
            final(self).spec_rows() == old(self).spec_rows(),
            final(self).alive() == old(self).alive().union(
                valid_cells(cells@, old(self).spec_cols(), old(self).spec_rows()),
            ),
            final(self).frontier() == old(self).frontier().union(
                with_neighbours(
                    valid_cells(cells@, old(self).spec_cols(), old(self).spec_rows()),
                    old(self).spec_cols(),
                    old(self).spec_rows(),
                ),
            ),
    {
        let ghost cols = self.spec_cols();
        let ghost rows = self.spec_rows();
        let mut i: usize = 0;
        proof {
            assert(valid_cells(cells@.take(0), cols, rows) =~= Set::empty());
            assert(with_neighbours(Set::empty(), cols, rows) =~= Set::empty());
            assert(self.alive().union(Set::empty()) =~= self.alive());
            assert(self.frontier().union(Set::empty()) =~= self.frontier());
        }
        while i < cells.len()
            invariant
                i <= cells.len(),
                self.wf(),
                self.spec_cols() == cols,
                self.spec_rows() == rows,
                cols == old(self).spec_cols(),
                rows == old(self).spec_rows(),
                self.alive() == old(self).alive().union(
                    valid_cells(cells@.take(i as int), cols, rows),
                ),
                self.frontier() == old(self).frontier().union(
                    with_neighbours(valid_cells(cells@.take(i as int), cols, rows), cols, rows),
                ),
            decreases cells.len() - i,
        {
            let c = cells[i];
            let ghost before = valid_cells(cells@.take(i as int), cols, rows);
            proof {
                let after = valid_cells(cells@.take(i as int + 1), cols, rows);
                assert forall|d: Cell| #[trigger] cells@.take(i as int + 1).contains(d) <==> (
                cells@.take(i as int).contains(d) || d == c) by {
                    crate::generation::lemma_take_one_more(cells@, i as int, d);
                }
                if in_bounds(c, cols, rows) {
                    assert(after =~= before.insert(c));
                    lemma_with_neighbours_insert(before, c, cols, rows);
                } else {
                    assert(after =~= before);
                }
            }
            self.do_activate_cell(c);
            proof {
                let after = valid_cells(cells@.take(i as int + 1), cols, rows);
                if in_bounds(c, cols, rows) {
                    assert(self.alive() =~= old(self).alive().union(after));
                    assert(self.frontier() =~= old(self).frontier().union(
                        with_neighbours(after, cols, rows),
                    ));
                }
            }
            i = i + 1;
        }
        assert(cells@.take(i as int) =~= cells@);
    }

    /// Brings `(x, y)` to life and puts it and its neighbours into the frontier;
    /// does nothing where `(x, y)` lies outside the grid.
    pub fn activate_cell(&mut self, x: u32, y: u32)
        requires
            old(self).wf(),
        ensures
            final(self).wf(),
            final(self).spec_cols() == old(self).spec_cols(),
            final(self).spec_rows() == old(self).spec_rows(),
            in_bounds(Cell { x, y }, old(self).spec_cols(), old(self).spec_rows()) ==> {
                &&& final(self).alive() == old(self).alive().insert(Cell { x, y })
                &&& final(self).frontier() == old(self).frontier().union(
                    touched(Cell { x, y }, old(self).spec_cols(), old(self).spec_rows()),
                )
            },
            !in_bounds(Cell { x, y }, old(self).spec_cols(), old(self).spec_rows()) ==> {
                &&& final(self).alive() == old(self).alive()
                &&& final(self).frontier() == old(self).frontier()
            },
            old(self).alive_count() <= final(self).alive_count() <= old(self).alive_count() + 1,
    {
        self.engine.activate_cell(x, y);
    }

    fn do_activate_cell(&mut self, cell: Cell)
        requires
            old(self).wf(),
        ensures
            final(self).wf(),
            final(self).spec_cols() == old(self).spec_cols(),
            final(self).spec_rows() == old(self).spec_rows(),
            in_bounds(cell, old(self).spec_cols(), old(self).spec_rows()) ==> {
                &&& final(self).alive() == old(self).alive().insert(cell)
                &&& final(self).frontier() == old(self).frontier().union(
                    touched(cell, old(self).spec_cols(), old(self).spec_rows()),
                )
            },
            !in_bounds(cell, old(self).spec_cols(), old(self).spec_rows()) ==> {
                &&& final(self).alive() == old(self).alive()
                &&& final(self).frontier() == old(self).frontier()
            },
            old(self).alive_count() <= final(self).alive_count() <= old(self).alive_count() + 1,
    {
        self.engine.activate_cell(cell.x, cell.y);
    }

    /// Advances one generation in the calling thread; the result is Conway's
    /// successor on the grid.
    pub fn next(&mut self)
        requires
            old(self).wf(),
        ensures
            final(self).wf(),
            final(self).spec_cols() == old(self).spec_cols(),
            final(self).spec_rows() == old(self).spec_rows(),
            final(self).alive() == next_alive(
                old(self).alive(),
                old(self).frontier(),
                old(self).spec_cols(),
                old(self).spec_rows(),
            ),
            final(self).frontier() == next_frontier(
                old(self).alive(),
                old(self).frontier(),
                old(self).spec_cols(),
                old(self).spec_rows(),
            ),
            final(self).alive() == life(old(self).alive(), old(self).spec_cols(), old(self).spec_rows()),
    {
        self.engine.next();
    }

    /// Activates the cells of `draws` that lie in the square with corner
    /// `top_left` and side `size`, clipped to the grid. None does where `top_left`
    /// lies outside the grid or `size` is zero.
    pub fn seed_square(&mut self, top_left: Cell, size: u32, draws: &Vec<Cell>)
        requires
            old(self).wf(),
        ensures
            final(self).wf(),
            final(self).spec_cols() == old(self).spec_cols(),
            final(self).spec_rows() == old(self).spec_rows(),
            final(self).alive() == old(self).alive().union(
                drawn_in_square(draws@, top_left, size, old(self).spec_cols(), old(self).spec_rows()),
            ),
            final(self).frontier() == old(self).frontier().union(
                with_neighbours(
                    drawn_in_square(
                        draws@,
                        top_left,
                        size,
                        old(self).spec_cols(),
                        old(self).spec_rows(),
                    ),
                    old(self).spec_cols(),
                    old(self).spec_rows(),
                ),
            ),
            old(self).alive_count() <= final(self).alive_count(),
            final(self).alive_count() <= old(self).alive_count() + draws@.len(),
    {
        let ghost cols = self.spec_cols();
        let ghost rows = self.spec_rows();
        let x_end = square_end(top_left.x, size, self.engine.cols());
        let y_end = square_end(top_left.y, size, self.engine.rows());
        let mut i: usize = 0;
        proof {
            assert(drawn_in_square(draws@.take(0), top_left, size, cols, rows) =~= Set::empty());
            assert(with_neighbours(Set::empty(), cols, rows) =~= Set::empty());
            assert(self.alive().union(Set::empty()) =~= self.alive());
            assert(self.frontier().union(Set::empty()) =~= self.frontier());
        }
        while i < draws.len()
            invariant
                i <= draws.len(),
                self.wf(),
                self.spec_cols() == cols,
                self.spec_rows() == rows,
                cols == old(self).spec_cols(),
                rows == old(self).spec_rows(),
                x_end == square_x_end(top_left, size, cols),
                y_end == square_y_end(top_left, size, rows),
                self.alive() == old(self).alive().union(
                    drawn_in_square(draws@.take(i as int), top_left, size, cols, rows),
                ),
                self.frontier() == old(self).frontier().union(
                    with_neighbours(
                        drawn_in_square(draws@.take(i as int), top_left, size, cols, rows),
                        cols,
                        rows,
                    ),
                ),
                old(self).alive_count() <= self.alive_count() <= old(self).alive_count() + i,
            decreases draws.len() - i,
        {
            let c = draws[i];
            let ghost before = drawn_in_square(draws@.take(i as int), top_left, size, cols, rows);
            let ghost after = drawn_in_square(draws@.take(i as int + 1), top_left, size, cols, rows);
            proof {
                assert forall|d: Cell| #[trigger] draws@.take(i as int + 1).contains(d) <==> (
                draws@.take(i as int).contains(d) || d == c) by {
                    crate::generation::lemma_take_one_more(draws@, i as int, d);
                }
            }
            if top_left.x <= c.x && (c.x as u64) < x_end && top_left.y <= c.y && (c.y as u64)
                < y_end {
                proof {
                    assert(after =~= before.insert(c));
                    lemma_with_neighbours_insert(before, c, cols, rows);
                }
                self.activate_cell(c.x, c.y);
                proof {
                    assert(self.alive() =~= old(self).alive().union(after));
                    assert(self.frontier() =~= old(self).frontier().union(
                        with_neighbours(after, cols, rows),
                    ));
                }
            } else {
                proof {
                    assert(after =~= before);
                }
            }
            i = i + 1;
        }
        assert(draws@.take(i as int) =~= draws@);
    }

    /// Activates a random number of random cells of the square with corner
    /// `top_left` and side `size`, clipped to the grid: draws a count below the
    /// square's area, then that many cells, each uniformly from the square, and
    /// seeds them as `seed_square` does. Does nothing where `top_left` lies
    /// outside the grid or `size` is zero.
    pub fn generate_random_square(&mut self, top_left: Cell, size: u32)
        requires
            old(self).wf(),
        ensures
            final(self).wf(),
            final(self).spec_cols() == old(self).spec_cols(),
            final(self).spec_rows() == old(self).spec_rows(),
            seeded_by_draws(
                old(self).alive(),
                old(self).frontier(),
                final(self).alive(),
                final(self).frontier(),
                top_left,
                size,
                old(self).spec_cols(),
                old(self).spec_rows(),
            ),
            !in_bounds(top_left, old(self).spec_cols(), old(self).spec_rows()) || size == 0 ==> {
                &&& final(self).alive() == old(self).alive()
                &&& final(self).frontier() == old(self).frontier()
            },
            old(self).alive_count() <= final(self).alive_count(),
            in_bounds(top_left, old(self).spec_cols(), old(self).spec_rows())
                ==> final(self).alive_count() <= old(self).alive_count() + square_area(
                top_left,
                size,
                old(self).spec_cols(),
                old(self).spec_rows(),
            ),
    {
        let ghost cols = self.spec_cols();
        let ghost rows = self.spec_rows();
        let mut draws: Vec<Cell> = Vec::new();
        if !self.is_cell_within_bounds(&top_left) || size == 0 {
            proof {
                assert(drawn_in_square(draws@, top_left, size, cols, rows) =~= Set::empty());
                assert(with_neighbours(Set::empty(), cols, rows) =~= Set::empty());
                assert(self.alive().union(Set::empty()) =~= self.alive());
                assert(self.frontier().union(Set::empty()) =~= self.frontier());
            }
            return;
        }
        let x_start = top_left.x as u64;
        let y_start = top_left.y as u64;
        let x_end = square_end(top_left.x, size, self.engine.cols());
        let y_end = square_end(top_left.y, size, self.engine.rows());
        let width = x_end - x_start;
        let height = y_end - y_start;
        assert(width * height <= 0xffff_ffff * 0xffff_ffff) by (nonlinear_arith)
            requires
                width <= 0xffff_ffff,
                height <= 0xffff_ffff,
        ;
        let area = width * height;
        assert(area > 0) by (nonlinear_arith)
            requires
                width > 0,
                height > 0,
                area == width * height,
        ;
        let amount = random_in_range(0, area);
        let mut n: u64 = 0;
        while n < amount
            invariant
                n <= amount,
                amount < area,
                draws@.len() == n,
                x_start == top_left.x,
                y_start == top_left.y,
                x_end == square_x_end(top_left, size, cols),
                y_end == square_y_end(top_left, size, rows),
                x_start < x_end <= cols,
                y_start < y_end <= rows,
                forall|i: int|
                    0 <= i < draws@.len() ==> in_square(#[trigger] draws@[i], top_left, size, cols, rows),
            decreases amount - n,
        {
            let x = random_in_range(x_start, x_end);
            let y = random_in_range(y_start, y_end);
            draws.push(Cell::new(x as u32, y as u32));
            n = n + 1;
        }
        self.seed_square(top_left, size, &draws);
    }

    /// The messages for one generation in the worker-pool mode: for the alive
    /// builder a `Start`, an `Add` for each live cell outside the frontier, the
    /// `Add`s that evaluating the frontier produces, and a `Finish`; for the
    /// frontier builder a `Start`, the `Add`s for the cells that are born or die,
    /// and a `Finish`. Fed in order, they leave the builders holding the next
    /// alive set and the next frontier.
    pub fn generation_messages(&self) -> (r: (Vec<Message>, Vec<Message>))
        ensures
            r.0@.len() >= 2,
            r.1@.len() >= 2,
            r.0@[0] is Start,
            r.1@[0] is Start,
            r.0@.last() == Message::Finish,
            r.1@.last() == Message::Finish,
            forall|i: int| 0 <= i < r.0@.len() - 1 ==> #[trigger] r.0@[i] != Message::Finish,
            forall|i: int| 0 <= i < r.1@.len() - 1 ==> #[trigger] r.1@[i] != Message::Finish,
            feed_alive(None, r.0@.drop_last()) == Some(
                next_alive(self.alive(), self.frontier(), self.spec_cols(), self.spec_rows()),
            ),
            feed_frontier(None, r.1@.drop_last(), self.spec_cols(), self.spec_rows()) == Some(
                next_frontier(self.alive(), self.frontier(), self.spec_cols(), self.spec_rows()),
            ),
    {
        proof {
            self.engine.lemma_views();
        }
        let ghost cols = self.spec_cols();
        let ghost rows = self.spec_rows();
        let ghost a = self.alive();
        let ghost f = self.frontier();
        let alive_keys = &self.engine.alive_cells;
        let frontier_keys = &self.engine.potential_cells;
        let hint_a = key_count(alive_keys);
        let hint_f = key_count(frontier_keys);
        let mut to_alive: Vec<Message> = Vec::new();
        let mut to_frontier: Vec<Message> = Vec::new();
        to_alive.push(Message::Start(hint_a));
        to_frontier.push(Message::Start(hint_f));
        // The live cells outside the frontier are carried over unevaluated.
        let live = keys_of(alive_keys);
        let ghost mut kept: Seq<Cell> = Seq::empty();
        proof {
            assert(to_alive@ =~= seq![Message::Start(hint_a)] + adds_of(kept));
        }
        let mut i: usize = 0;
        while i < live.len()
            invariant
                i <= live.len(),
                a == cells_of(alive_keys@),
                f == cells_of(frontier_keys@),
                live@.to_set() == alive_keys@,
                forall|c: Cell| #[trigger]
                    kept.contains(c) <==> (live@.take(i as int).contains(key_of(c)) && !f.contains(c)),
                to_alive@ == seq![Message::Start(hint_a)] + adds_of(kept),
                forall|j: int| 0 <= j < to_alive@.len() ==> #[trigger] to_alive@[j] != Message::Finish,
            decreases live.len() - i,
        {
            let k = live[i];
            let cell = Cell::from_key(k);
            proof {
                assert forall|c: Cell| #[trigger] live@.take(i as int + 1).contains(key_of(c)) <==> (
                live@.take(i as int).contains(key_of(c)) || c == cell) by {
                    crate::generation::lemma_take_one_more(live@, i as int, key_of(c));
                    crate::cell::lemma_key_injective(c, cell);
                }
            }
            if !contains_key(frontier_keys, k) {
                proof {
                    let more = kept.push(cell);
                    assert(more.drop_last() =~= kept);
                    assert(to_alive@.push(Message::Add(cell)) =~= seq![Message::Start(hint_a)]
                        + adds_of(more));
                    assert forall|c: Cell| #[trigger] more.contains(c) <==> (kept.contains(c) || c == cell) by {
                        crate::generation::lemma_take_one_more(more, kept.len() as int, c);
                        assert(more.take(kept.len() as int) =~= kept);
                        assert(more.take(kept.len() as int + 1) =~= more);
                    }
                    kept = more;
                }
                to_alive.push(Message::Add(cell));
            }
            i = i + 1;
        }
        proof {
            assert(live@.take(i as int) =~= live@);
            assert forall|c: Cell| #[trigger] kept.to_set().contains(c) == kept_alive(a, f).contains(c) by {
                assert(live@.to_set().contains(key_of(c)) == live@.contains(key_of(c)));
            }
            assert(kept.to_set() =~= kept_alive(a, f));
        }
        let ghost carried = to_alive@;
        let keys = keys_of(frontier_keys);
        let mut around: Vec<Cell> = Vec::new();
        let ghost mut order: Seq<Cell> = Seq::empty();
        proof {
            assert(to_alive@ =~= carried + alive_adds(a, order, cols, rows));
            assert(to_frontier@ =~= seq![Message::Start(hint_f)] + frontier_adds(a, order, cols, rows));
        }
        let mut i: usize = 0;
        while i < keys.len()
            invariant
                i <= keys.len(),
                a == cells_of(alive_keys@),
                f == cells_of(frontier_keys@),
                keys@.to_set() == frontier_keys@,
                cols == self.spec_cols(),
                rows == self.spec_rows(),
                cols == self.engine.cols,
                rows == self.engine.rows,
                order.len() == i,
                forall|j: int| 0 <= j < i ==> #[trigger] order[j] == cell_of(keys@[j]),
                to_alive@ == carried + alive_adds(a, order, cols, rows),
                to_frontier@ == seq![Message::Start(hint_f)] + frontier_adds(a, order, cols, rows),
                forall|j: int| 0 <= j < to_alive@.len() ==> #[trigger] to_alive@[j] != Message::Finish,
                forall|j: int|
                    0 <= j < to_frontier@.len() ==> #[trigger] to_frontier@[j] != Message::Finish,
            decreases keys.len() - i,
        {
            let k = keys[i];
            let cell = Cell::from_key(k);
            let is_alive = contains_key(alive_keys, k);
            crate::cell::get_neighbours(self.engine.cols, self.engine.rows, &cell, &mut around);
            let count = crate::generation::count_alive(alive_keys, &around);
            let ghost next_order = order.push(cell);
            proof {
                assert(next_order.drop_last() =~= order);
                assert(is_alive == a.contains(cell));
            }
            if is_alive {
                if count == 2 || count == 3 {
                    to_alive.push(Message::Add(cell));
                } else {
                    to_frontier.push(Message::Add(cell));
                }
            } else if count == 3 {
                to_alive.push(Message::Add(cell));
                to_frontier.push(Message::Add(cell));
            }
            proof {
                assert(to_alive@ =~= carried + alive_adds(a, next_order, cols, rows));
                assert(to_frontier@ =~= seq![Message::Start(hint_f)] + frontier_adds(
                    a,
                    next_order,
                    cols,
                    rows,
                ));
                order = next_order;
            }
            i = i + 1;
        }
        proof {
            assert forall|c: Cell| #[trigger] order.to_set().contains(c) == f.contains(c) by {
                if order.contains(c) {
                    let j = choose|j: int| 0 <= j < order.len() && order[j] == c;
                    crate::cell::lemma_cell_of_key(keys@[j]);
                    assert(keys@.to_set().contains(key_of(c)));
                }
                if f.contains(c) {
                    assert(keys@.to_set().contains(key_of(c)));
                    let j = choose|j: int| 0 <= j < keys@.len() && keys@[j] == key_of(c);
                    crate::cell::lemma_key_of_cell(c);
                    assert(order[j] == c);
                }
            }
            assert(order.to_set() =~= f);
            lemma_workers_match_step(a, kept, order, hint_a, hint_f, cols, rows);
            assert(carried + alive_adds(a, order, cols, rows) =~= seq![Message::Start(hint_a)]
                + adds_of(kept) + alive_adds(a, order, cols, rows));
        }
        let ghost body_a = to_alive@;
        let ghost body_f = to_frontier@;
        to_alive.push(Message::Finish);
        to_frontier.push(Message::Finish);
        assert(to_alive@.drop_last() =~= body_a);
        assert(to_frontier@.drop_last() =~= body_f);
        (to_alive, to_frontier)
    }

    /// Runs one generation through the two builders in the calling thread: feeds
    /// each its messages in order and installs the sets they hand back. The
    /// worker-pool mode does the same with each builder in a thread of its own.
    pub fn next_with_builders(&mut self, alive: &mut AliveBuilder, frontier: &mut FrontierBuilder)
        requires
            old(self).wf(),
            old(alive).wf(),
            old(frontier).wf(),
            old(frontier).spec_cols() == old(self).spec_cols(),
            old(frontier).spec_rows() == old(self).spec_rows(),
        ensures
            final(self).wf(),
            final(alive).wf(),
            final(frontier).wf(),
            final(frontier).spec_cols() == old(frontier).spec_cols(),
            final(frontier).spec_rows() == old(frontier).spec_rows(),
            final(self).spec_cols() == old(self).spec_cols(),
            final(self).spec_rows() == old(self).spec_rows(),
            final(self).alive() == next_alive(
                old(self).alive(),
                old(self).frontier(),
                old(self).spec_cols(),
                old(self).spec_rows(),
            ),
            final(self).frontier() == next_frontier(
                old(self).alive(),
                old(self).frontier(),
                old(self).spec_cols(),
                old(self).spec_rows(),
            ),
            final(self).alive() == life(old(self).alive(), old(self).spec_cols(), old(self).spec_rows()),
    {
        let (to_alive, to_frontier) = self.generation_messages();
        let alive_cells = run_alive_builder(alive, &to_alive);
        let potential_cells = run_frontier_builder(frontier, &to_frontier);
        self.finish_generation(alive_cells, potential_cells);
    }

    /// Installs the sets that the builders handed back for this generation: the
    /// worker-pool counterpart of the replacement at the end of `next`.
    pub fn finish_generation(&mut self, alive_cells: KeySet, potential_cells: KeySet)
        requires
            old(self).wf(),
            cells_of(alive_cells@) == next_alive(
                old(self).alive(),
                old(self).frontier(),
                old(self).spec_cols(),
                old(self).spec_rows(),
            ),
            cells_of(potential_cells@) == next_frontier(
                old(self).alive(),
                old(self).frontier(),
                old(self).spec_cols(),
                old(self).spec_rows(),
            ),
            alive_cells@.finite(),
            potential_cells@.finite(),
        ensures
            final(self).wf(),
            final(self).spec_cols() == old(self).spec_cols(),
            final(self).spec_rows() == old(self).spec_rows(),
            final(self).alive() == next_alive(
                old(self).alive(),
                old(self).frontier(),
                old(self).spec_cols(),
                old(self).spec_rows(),
            ),
            final(self).frontier() == next_frontier(
                old(self).alive(),
                old(self).frontier(),
                old(self).spec_cols(),
                old(self).spec_rows(),
            ),
            final(self).alive() == life(old(self).alive(), old(self).spec_cols(), old(self).spec_rows()),
    {
        proof {
            self.engine.lemma_views();
            self.engine.lemma_in_bounds();
            lemma_bounds_closed(self.alive(), self.frontier(), self.spec_cols(), self.spec_rows());
            lemma_step_keeps_frontier_complete(
                self.alive(),
                self.frontier(),
                self.spec_cols(),
                self.spec_rows(),
            );
            lemma_complete_frontier_gives_life(
                self.alive(),
                self.frontier(),
                self.spec_cols(),
                self.spec_rows(),
            );
        }
        self.engine.alive_cells = alive_cells;
        self.engine.potential_cells = potential_cells;
        proof {
            self.engine.lemma_views();
        }
    }

    fn is_cell_within_bounds(&self, cell: &Cell) -> (r: bool)
        ensures
            r == in_bounds(*cell, self.spec_cols(), self.spec_rows()),
    {
        cell.x < self.engine.cols() && cell.y < self.engine.rows()
    }

    /// The live cells, each once, in no particular order.
    pub fn get_alive_cells(&self) -> (r: Vec<Cell>)
        ensures
            r@.to_set() == self.alive(),
            r@.no_duplicates(),
    {
        self.engine.alive_cells()
    }

    /// The frontier cells, each once, in no particular order.
    pub fn get_frontier_cells(&self) -> (r: Vec<Cell>)
        ensures
            r@.to_set() == self.frontier(),
            r@.no_duplicates(),
    {
        self.engine.frontier_cells()
    }

    /// How many cells are alive.
    pub fn get_alive_cells_count(&self) -> (r: usize)
        ensures
            r == self.alive_count(),
    {
        self.engine.alive_cells_count()
    }

    pub fn cols(&self) -> (r: u32)
        ensures
            r == self.spec_cols(),
    {
        self.engine.cols()
    }

    pub fn rows(&self) -> (r: u32)
        ensures
            r == self.spec_rows(),
    {
        self.engine.rows()
    }

    /// Whether `(x, y)` is alive.
    pub fn is_alive(&self, x: u32, y: u32) -> (r: bool)
        ensures
            r == self.alive().contains(Cell { x, y }),
    {
        self.engine.is_alive(x, y)
    }

    /// Whether `(x, y)` is in the frontier.
    pub fn is_in_frontier(&self, x: u32, y: u32) -> (r: bool)
        ensures
            r == self.frontier().contains(Cell { x, y }),
    {
        self.engine.is_in_frontier(x, y)
    }
}

} // verus!
