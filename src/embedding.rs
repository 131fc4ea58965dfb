//! A surface for foreign callers: engines and cursors behind integer handles.
//!
//! Handle 0 stands for no engine or no cursor, and every operation on it, or on a
//! handle already freed, does nothing (or returns 0 or `None`). A cursor lists
//! the live cells as they were when it was opened.
use crate::cell::{Cell, in_bounds};
use crate::life_engine::{seeded_by_draws, square_area, LifeEngine};
use crate::rules::{life, next_alive, next_frontier, touched};
use vstd::prelude::*;

verus! {

/// The state behind the handles.
pub struct Embedding {
    engines: Vec<Option<LifeEngine>>,
    cursors: Vec<Option<AliveCursor>>,
}

/// A cursor over a snapshot of the live cells of one engine.
pub struct AliveCursor {
    cells: Vec<Cell>,
    position: usize,
}

impl AliveCursor {
    pub closed spec fn remaining(&self) -> Seq<Cell> {
        self.cells@.skip(self.position as int)
    }

    pub closed spec fn wf(&self) -> bool {
        self.position <= self.cells@.len()
    }
}

impl Embedding {
    /// The engine behind handle `h`, if there is one.
    pub closed spec fn engine(&self, h: usize) -> Option<LifeEngine> {
        if 1 <= h <= self.engines@.len() {
            self.engines@[h - 1]
        } else {
            None
        }
    }

    /// The cells that cursor `c` has yet to hand out, if the cursor is open.
    pub closed spec fn cursor(&self, c: usize) -> Option<Seq<Cell>> {
        if 1 <= c <= self.cursors@.len() {
            match self.cursors@[c - 1] {
                Some(cur) => Some(cur.remaining()),
                None => None,
            }
        } else {
            None
        }
    }

    /// How many engine handles have been given out.
    pub closed spec fn engine_slots(&self) -> nat {
        self.engines@.len()
    }

    /// How many cursor handles have been given out.
    pub closed spec fn cursor_slots(&self) -> nat {
        self.cursors@.len()
    }

    pub closed spec fn wf(&self) -> bool {
        &&& forall|i: int|
            0 <= i < self.engines@.len() && #[trigger] self.engines@[i] is Some
                ==> self.engines@[i].unwrap().wf()
        &&& forall|i: int|
            0 <= i < self.cursors@.len() && #[trigger] self.cursors@[i] is Some
                ==> self.cursors@[i].unwrap().wf()
    }

    /// A table with no engine and no cursor.
    pub fn new() -> (r: Embedding)
        ensures
            r.wf(),
            forall|h: usize| r.engine(h) is None,
            forall|c: usize| r.cursor(c) is None,
    {
        Embedding { engines: Vec::new(), cursors: Vec::new() }
    }

    /// Every engine behind a handle is well formed.
    pub proof fn lemma_engine_wf(&self, h: usize)
        requires
            self.wf(),
            self.engine(h) is Some,
        ensures
            self.engine(h).unwrap().wf(),
    {
        assert(self.engines@[h - 1] is Some);
    }

    /// Takes the engine behind `h` out of its slot, leaving the slot empty.
    fn take_engine(&mut self, h: usize) -> (r: Option<LifeEngine>)
        requires
            old(self).wf(),
        ensures
            final(self).wf(),
            r == old(self).engine(h),
            final(self).engine(h) is None,
            forall|g: usize| g != h ==> final(self).engine(g) == old(self).engine(g),
            forall|c: usize| final(self).cursor(c) == old(self).cursor(c),
            final(self).engines@.len() == old(self).engines@.len(),
    {
        if h == 0 || h > self.engines.len() {
            return None;
        }
        let mut slot: Option<LifeEngine> = None;
        std::mem::swap(&mut slot, &mut self.engines[h - 1]);
        slot
    }

    /// Puts `e` back into the slot of `h`, which `take_engine` emptied.
    fn put_engine(&mut self, h: usize, e: LifeEngine)
        requires
            old(self).wf(),
            e.wf(),
            1 <= h <= old(self).engines@.len(),
        ensures
            final(self).wf(),
            final(self).engine(h) == Some(e),
            forall|g: usize| g != h ==> final(self).engine(g) == old(self).engine(g),
            forall|c: usize| final(self).cursor(c) == old(self).cursor(c),
            final(self).engines@.len() == old(self).engines@.len(),
    {
        let mut slot: Option<LifeEngine> = Some(e);
        std::mem::swap(&mut slot, &mut self.engines[h - 1]);
    }
}

/// Creates an engine on a `cols` by `rows` grid and returns its handle, never 0.
pub fn engine_new(table: &mut Embedding, cols: u32, rows: u32) -> (h: usize)
    requires
        old(table).wf(),
        old(table).engine_slots() < usize::MAX,
    ensures
        final(table).wf(),
        h != 0,
        old(table).engine(h) is None,
        final(table).engine(h) is Some,
        final(table).engine(h).unwrap().wf(),
        final(table).engine(h).unwrap().spec_cols() == cols,
        final(table).engine(h).unwrap().spec_rows() == rows,
        final(table).engine(h).unwrap().alive() == Set::<Cell>::empty(),
        final(table).engine(h).unwrap().frontier() == Set::<Cell>::empty(),
        forall|g: usize| g != h ==> final(table).engine(g) == old(table).engine(g),
        forall|c: usize| final(table).cursor(c) == old(table).cursor(c),
{
    table.engines.push(Some(LifeEngine::new(cols, rows)));
    table.engines.len()
}

/// Destroys the engine behind `h`; does nothing where there is none.
pub fn engine_free(table: &mut Embedding, h: usize)
    requires
        old(table).wf(),
    ensures
        final(table).wf(),
        final(table).engine(h) is None,
        forall|g: usize| g != h ==> final(table).engine(g) == old(table).engine(g),
        forall|c: usize| final(table).cursor(c) == old(table).cursor(c),
{
    let _ = table.take_engine(h);
}

/// Advances the engine behind `h` by one generation; does nothing where there is none.
pub fn engine_next(table: &mut Embedding, h: usize)
    requires
        old(table).wf(),
    ensures
        final(table).wf(),
        match old(table).engine(h) {
            Some(e) => final(table).engine(h) is Some && {
                let f = final(table).engine(h).unwrap();
                &&& f.spec_cols() == e.spec_cols()
                &&& f.spec_rows() == e.spec_rows()
                &&& f.alive() == next_alive(e.alive(), e.frontier(), e.spec_cols(), e.spec_rows())
                &&& f.alive() == life(e.alive(), e.spec_cols(), e.spec_rows())
                &&& f.frontier() == next_frontier(
                    e.alive(),
                    e.frontier(),
                    e.spec_cols(),
                    e.spec_rows(),
                )
            },
            None => final(table).engine(h) is None,
        },
        forall|g: usize| g != h ==> final(table).engine(g) == old(table).engine(g),
        forall|c: usize| final(table).cursor(c) == old(table).cursor(c),
{
    proof {
        if table.engine(h) is Some {
            table.lemma_engine_wf(h);
        }
    }
    match table.take_engine(h) {
        Some(mut e) => {
            e.next();
            table.put_engine(h, e);
        },
        None => {},
    }
}

/// Activates `(x, y)` in the engine behind `h`; does nothing where there is none.
pub fn engine_activate_cell(table: &mut Embedding, h: usize, x: u32, y: u32)
    requires
        old(table).wf(),
    ensures
        final(table).wf(),
        match old(table).engine(h) {
            Some(e) => final(table).engine(h) is Some && {
                let f = final(table).engine(h).unwrap();
                &&& f.spec_cols() == e.spec_cols()
                &&& f.spec_rows() == e.spec_rows()
                &&& in_bounds(Cell { x, y }, e.spec_cols(), e.spec_rows()) ==> {
                    &&& f.alive() == e.alive().insert(Cell { x, y })
                    &&& f.frontier() == e.frontier().union(
                        touched(Cell { x, y }, e.spec_cols(), e.spec_rows()),
                    )
                }
                &&& !in_bounds(Cell { x, y }, e.spec_cols(), e.spec_rows()) ==> {
                    &&& f.alive() == e.alive()
                    &&& f.frontier() == e.frontier()
                }
            },
            None => final(table).engine(h) is None,
        },
        forall|g: usize| g != h ==> final(table).engine(g) == old(table).engine(g),
        forall|c: usize| final(table).cursor(c) == old(table).cursor(c),
{
    proof {
        if table.engine(h) is Some {
            table.lemma_engine_wf(h);
        }
    }
    match table.take_engine(h) {
        Some(mut e) => {
            e.activate_cell(x, y);
            table.put_engine(h, e);
        },
        None => {},
    }
}

/// Seeds the square with corner `(x, y)` and side `size` in the engine behind `h`
/// (see `LifeEngine::generate_random_square`); does nothing where there is none.
pub fn engine_generate_random_square(table: &mut Embedding, h: usize, x: u32, y: u32, size: u32)
    requires
        old(table).wf(),
    ensures
        final(table).wf(),
        match old(table).engine(h) {
            Some(e) => final(table).engine(h) is Some && {
                let f = final(table).engine(h).unwrap();
                &&& f.spec_cols() == e.spec_cols()
                &&& f.spec_rows() == e.spec_rows()
                &&& seeded_by_draws(
                    e.alive(),
                    e.frontier(),
                    f.alive(),
                    f.frontier(),
                    Cell { x, y },
                    size,
                    e.spec_cols(),
                    e.spec_rows(),
                )
                &&& in_bounds(Cell { x, y }, e.spec_cols(), e.spec_rows()) ==> f.alive_count()
                    <= e.alive_count() + square_area(
                    Cell { x, y },
                    size,
                    e.spec_cols(),
                    e.spec_rows(),
                )
            },
            None => final(table).engine(h) is None,
        },
        forall|g: usize| g != h ==> final(table).engine(g) == old(table).engine(g),
        forall|c: usize| final(table).cursor(c) == old(table).cursor(c),
{
    proof {
        if table.engine(h) is Some {
            table.lemma_engine_wf(h);
        }
    }
    match table.take_engine(h) {
        Some(mut e) => {
            e.generate_random_square(Cell::new(x, y), size);
            table.put_engine(h, e);
        },
        None => {},
    }
}

/// Opens a cursor over the live cells of the engine behind `h` and returns its
/// handle, never 0; returns 0 where there is no engine.
pub fn engine_alive_cells_iterator_get(table: &mut Embedding, h: usize) -> (c: usize)
    requires
        old(table).wf(),
        old(table).cursor_slots() < usize::MAX,
    ensures
        final(table).wf(),
        forall|g: usize| final(table).engine(g) == old(table).engine(g),
        match old(table).engine(h) {
            Some(e) => {
                &&& c != 0
                &&& old(table).cursor(c) is None
                &&& final(table).cursor(c) is Some
                &&& final(table).cursor(c).unwrap().to_set() == e.alive()
                &&& final(table).cursor(c).unwrap().no_duplicates()
                &&& forall|d: usize| d != c ==> final(table).cursor(d) == old(table).cursor(d)
            },
            None => {
                &&& c == 0
                &&& forall|d: usize| final(table).cursor(d) == old(table).cursor(d)
            },
        },
{
    if h == 0 || h > table.engines.len() {
        return 0;
    }
    let cells = match &table.engines[h - 1] {
        Some(e) => e.get_alive_cells(),
        None => {
            return 0;
        },
    };
    let ghost cs = cells@;
    table.cursors.push(Some(AliveCursor { cells, position: 0 }));
    proof {
        assert(cs.skip(0) =~= cs);
    }
    table.cursors.len()
}

/// Hands out the next cell of cursor `c`, or `None` once it has handed out all of
/// them or where the cursor is not open.
pub fn engine_alive_cells_iterator_next(table: &mut Embedding, c: usize) -> (r: Option<Cell>)
    requires
        old(table).wf(),
    ensures
        final(table).wf(),
        forall|g: usize| final(table).engine(g) == old(table).engine(g),
        forall|d: usize| d != c ==> final(table).cursor(d) == old(table).cursor(d),
        match old(table).cursor(c) {
            Some(s) => if s.len() > 0 {
                &&& r == Some(s[0])
                &&& final(table).cursor(c) == Some(s.drop_first())
            } else {
                &&& r is None
                &&& final(table).cursor(c) == Some(s)
            },
            None => r is None && final(table).cursor(c) is None,
        },
{
    if c == 0 || c > table.cursors.len() {
        return None;
    }
    let mut slot: Option<AliveCursor> = None;
    std::mem::swap(&mut slot, &mut table.cursors[c - 1]);
    let r = match slot {
        Some(mut cur) => {
            proof {
                assert(old(table).cursors@[c - 1] is Some);
            }
            let r = if cur.position < cur.cells.len() {
                let cell = cur.cells[cur.position];
                proof {
                    assert(cur.cells@.skip(cur.position as int + 1) =~= cur.cells@.skip(
                        cur.position as int,
                    ).drop_first());
                }
                cur.position = cur.position + 1;
                Some(cell)
            } else {
                None
            };
            let mut back: Option<AliveCursor> = Some(cur);
            std::mem::swap(&mut back, &mut table.cursors[c - 1]);
            r
        },
        None => None,
    };
    r
}

/// Closes cursor `c`; does nothing where it is not open.
pub fn engine_alive_cells_iterator_free(table: &mut Embedding, c: usize)
    requires
        old(table).wf(),
    ensures
        final(table).wf(),
        forall|g: usize| final(table).engine(g) == old(table).engine(g),
        final(table).cursor(c) is None,
        forall|d: usize| d != c ==> final(table).cursor(d) == old(table).cursor(d),
{
    if c == 0 || c > table.cursors.len() {
        return;
    }
    let mut slot: Option<AliveCursor> = None;
    std::mem::swap(&mut slot, &mut table.cursors[c - 1]);
}

} // verus!
