//! The two set builders of the worker-pool mode, as state machines over messages.
//!
//! Per generation each builder receives `Start`, then `Add`s, then `Finish`, on
//! which it hands its completed set back and waits for the next `Start`. The
//! alive builder stores each added cell; the frontier builder stores each added
//! cell together with its neighbours.
use crate::cell::{Cell, cells_of};
use crate::cell_set::{empty_key_set, insert_key, KeySet};
use crate::generation::{insert_with_neighbours, lemma_cells_of_empty, lemma_step_insert};
use crate::rules::{
    changes, evaluated_alive, kept_alive, lemma_cells_of_insert, lemma_next_alive_split,
    lives_next, next_alive, next_frontier, touched,
};
use vstd::prelude::*;

verus! {

/// A message from the coordinator to a builder.
#[derive(Clone, Copy, PartialEq, Eq, Structural, Debug)]
pub enum Message {
    /// Begin a new, empty set; the number is a capacity hint.
    Start(usize),
    /// Add a cell (the frontier builder adds its neighbours too).
    Add(Cell),
    /// Hand the completed set back.
    Finish,
}

/// What the alive builder holds after `m`, given what it held before.
pub open spec fn alive_builder_step(state: Option<Set<Cell>>, m: Message) -> Option<Set<Cell>> {
    match m {
        Message::Start(_) => Some(Set::empty()),
        Message::Add(c) => match state {
            Some(s) => Some(s.insert(c)),
            None => None,
        },
        Message::Finish => None,
    }
}

/// What the frontier builder holds after `m`, given what it held before.
pub open spec fn frontier_builder_step(
    state: Option<Set<Cell>>,
    m: Message,
    cols: u32,
    rows: u32,
) -> Option<Set<Cell>> {
    match m {
        Message::Start(_) => Some(Set::empty()),
        Message::Add(c) => match state {
            Some(s) => Some(s.union(touched(c, cols, rows))),
            None => None,
        },
        Message::Finish => None,
    }
}

/// What a builder hands back on `m`: its set on `Finish`, if it has one.
pub open spec fn builder_reply(state: Option<Set<Cell>>, m: Message) -> Option<Set<Cell>> {
    match m {
        Message::Finish => state,
        _ => None,
    }
}

/// The alive builder's state after the messages `msgs`, in order.
pub open spec fn feed_alive(state: Option<Set<Cell>>, msgs: Seq<Message>) -> Option<Set<Cell>>
    decreases msgs.len(),
{
    if msgs.len() == 0 {
        state
    } else {
        alive_builder_step(feed_alive(state, msgs.drop_last()), msgs.last())
    }
}

/// The frontier builder's state after the messages `msgs`, in order.
pub open spec fn feed_frontier(
    state: Option<Set<Cell>>,
    msgs: Seq<Message>,
    cols: u32,
    rows: u32,
) -> Option<Set<Cell>>
    decreases msgs.len(),
{
    if msgs.len() == 0 {
        state
    } else {
        frontier_builder_step(feed_frontier(state, msgs.drop_last(), cols, rows), msgs.last(), cols, rows)
    }
}

/// The `Add`s that the coordinator sends the alive builder when it evaluates the
/// cells of `order` in turn: one for each cell that lives in the next generation.
pub open spec fn alive_adds(alive: Set<Cell>, order: Seq<Cell>, cols: u32, rows: u32) -> Seq<
    Message,
>
    decreases order.len(),
{
    if order.len() == 0 {
        Seq::empty()
    } else {
        let c = order.last();
        alive_adds(alive, order.drop_last(), cols, rows) + if lives_next(alive, c, cols, rows) {
            seq![Message::Add(c)]
        } else {
            Seq::empty()
        }
    }
}

/// The `Add`s that the coordinator sends the frontier builder when it evaluates
/// the cells of `order` in turn: one for each cell that is born or dies.
pub open spec fn frontier_adds(alive: Set<Cell>, order: Seq<Cell>, cols: u32, rows: u32) -> Seq<
    Message,
>
    decreases order.len(),
{
    if order.len() == 0 {
        Seq::empty()
    } else {
        let c = order.last();
        frontier_adds(alive, order.drop_last(), cols, rows) + if changes(alive, c, cols, rows) {
            seq![Message::Add(c)]
        } else {
            Seq::empty()
        }
    }
}

/// One `Add` for each cell of `cells`, in order.
pub open spec fn adds_of(cells: Seq<Cell>) -> Seq<Message>
    decreases cells.len(),
{
    if cells.len() == 0 {
        Seq::empty()
    } else {
        adds_of(cells.drop_last()) + seq![Message::Add(cells.last())]
    }
}

proof fn lemma_to_set_last(s: Seq<Cell>)
    requires
        s.len() > 0,
    ensures
        s.to_set() == s.drop_last().to_set().insert(s.last()),
{
    let rest = s.drop_last();
    assert forall|d: Cell| s.contains(d) <==> rest.contains(d) || d == s.last() by {
        crate::generation::lemma_take_one_more(s, rest.len() as int, d);
        assert(s.take(rest.len() as int) =~= rest);
        assert(s.take(rest.len() as int + 1) =~= s);
    }
    assert(s.to_set() =~= rest.to_set().insert(s.last()));
}

proof fn lemma_feed_alive_concat(state: Option<Set<Cell>>, x: Seq<Message>, y: Seq<Message>)
    ensures
        feed_alive(state, x + y) == feed_alive(feed_alive(state, x), y),
    decreases y.len(),
{
    if y.len() == 0 {
        assert(x + y =~= x);
    } else {
        assert((x + y).drop_last() =~= x + y.drop_last());
        assert((x + y).last() == y.last());
        lemma_feed_alive_concat(state, x, y.drop_last());
    }
}

proof fn lemma_feed_alive_cells(base: Set<Cell>, cells: Seq<Cell>)
    ensures
        feed_alive(Some(base), adds_of(cells)) == Some(base.union(cells.to_set())),
    decreases cells.len(),
{
    if cells.len() == 0 {
        assert(base.union(cells.to_set()) =~= base);
    } else {
        let rest = cells.drop_last();
        lemma_feed_alive_cells(base, rest);
        lemma_to_set_last(cells);
        let m = adds_of(cells);
        assert(m.drop_last() =~= adds_of(rest));
        assert(base.union(rest.to_set()).insert(cells.last()) =~= base.union(cells.to_set()));
    }
}

proof fn lemma_feed_alive_adds(alive: Set<Cell>, base: Set<Cell>, order: Seq<Cell>, cols: u32, rows: u32)
    ensures
        feed_alive(Some(base), alive_adds(alive, order, cols, rows)) == Some(
            base.union(evaluated_alive(alive, order.to_set(), cols, rows)),
        ),
    decreases order.len(),
{
    if order.len() == 0 {
        assert(order.to_set() =~= Set::<Cell>::empty());
        assert(base.union(evaluated_alive(alive, order.to_set(), cols, rows)) =~= base);
        assert(alive_adds(alive, order, cols, rows) =~= Seq::<Message>::empty());
    } else {
        let rest = order.drop_last();
        let c = order.last();
        lemma_feed_alive_adds(alive, base, rest, cols, rows);
        lemma_to_set_last(order);
        lemma_step_insert(alive, rest.to_set(), c, cols, rows);
        let prev = alive_adds(alive, rest, cols, rows);
        let m = alive_adds(alive, order, cols, rows);
        if lives_next(alive, c, cols, rows) {
            assert(m =~= prev.push(Message::Add(c)));
            assert(m.drop_last() =~= prev);
            assert(base.union(evaluated_alive(alive, rest.to_set(), cols, rows)).insert(c)
                =~= base.union(evaluated_alive(alive, order.to_set(), cols, rows)));
        } else {
            assert(m =~= prev);
        }
    }
}

/// The worker-pool mode computes the same generation as the single-threaded step,
/// whatever the order in which the cells are handed out. The alive builder gets
/// a `Start`, an `Add` for each live cell outside the frontier (`kept`, in any
/// order), then the `Add`s for any enumeration `order` of the frontier; it ends up
/// holding the next alive set. The frontier builder gets a `Start` and the `Add`s
/// for `order`; it ends up holding the next frontier.
pub proof fn lemma_workers_match_step(
    alive: Set<Cell>,
    kept: Seq<Cell>,
    order: Seq<Cell>,
    hint_a: usize,
    hint_f: usize,
    cols: u32,
    rows: u32,
)
    requires
        kept.to_set() == kept_alive(alive, order.to_set()),
    ensures
        feed_alive(
            None,
            seq![Message::Start(hint_a)] + adds_of(kept) + alive_adds(alive, order, cols, rows),
        ) == Some(next_alive(alive, order.to_set(), cols, rows)),
        feed_frontier(
            None,
            seq![Message::Start(hint_f)] + frontier_adds(alive, order, cols, rows),
            cols,
            rows,
        ) == Some(next_frontier(alive, order.to_set(), cols, rows)),
{
    let start = seq![Message::Start(hint_a)];
    assert(start.drop_last() =~= Seq::<Message>::empty());
    lemma_feed_alive_concat(None, start, adds_of(kept));
    lemma_feed_alive_cells(Set::empty(), kept);
    lemma_feed_alive_concat(None, start + adds_of(kept), alive_adds(alive, order, cols, rows));
    lemma_feed_alive_adds(alive, Set::empty().union(kept.to_set()), order, cols, rows);
    lemma_next_alive_split(alive, order.to_set(), cols, rows);
    assert(Set::<Cell>::empty().union(kept.to_set()) =~= kept.to_set());
    lemma_frontier_workers(alive, order, hint_f, cols, rows);
}

proof fn lemma_frontier_workers(alive: Set<Cell>, order: Seq<Cell>, hint_f: usize, cols: u32, rows: u32)
    ensures
        feed_frontier(
            None,
            seq![Message::Start(hint_f)] + frontier_adds(alive, order, cols, rows),
            cols,
            rows,
        ) == Some(next_frontier(alive, order.to_set(), cols, rows)),
    decreases order.len(),
{
    let sf = seq![Message::Start(hint_f)] + frontier_adds(alive, order, cols, rows);
    if order.len() == 0 {
        assert(sf.drop_last() =~= Seq::<Message>::empty());
        assert(order.to_set() =~= Set::<Cell>::empty());
        assert(next_frontier(alive, Set::empty(), cols, rows) =~= Set::empty());
    } else {
        let rest = order.drop_last();
        let c = order.last();
        lemma_frontier_workers(alive, rest, hint_f, cols, rows);
        lemma_step_insert(alive, rest.to_set(), c, cols, rows);
        lemma_to_set_last(order);
        let pf = seq![Message::Start(hint_f)] + frontier_adds(alive, rest, cols, rows);
        if changes(alive, c, cols, rows) {
            assert(sf =~= pf.push(Message::Add(c)));
            assert(sf.drop_last() =~= pf);
        } else {
            assert(sf =~= pf);
        }
    }
}

/// The worker that builds the next alive set.
pub struct AliveBuilder {
    cells: Option<KeySet>,
}

/// The worker that builds the next frontier.
pub struct FrontierBuilder {
    cols: u32,
    rows: u32,
    cells: Option<KeySet>,
    buf: Vec<Cell>,
}

/// A builder's set, if it has one, is finite.
pub open spec fn held_finite(s: Option<KeySet>) -> bool {
    match s {
        Some(k) => k@.finite(),
        None => true,
    }
}

/// The cells that an optional key set stands for.
pub open spec fn held(s: Option<KeySet>) -> Option<Set<Cell>> {
    match s {
        Some(k) => Some(cells_of(k@)),
        None => None,
    }
}

impl AliveBuilder {
    /// The set under construction, if a generation has started.
    pub closed spec fn contents(&self) -> Option<Set<Cell>> {
        held(self.cells)
    }

    pub closed spec fn wf(&self) -> bool {
        held_finite(self.cells)
    }

    pub fn new() -> (r: AliveBuilder)
        ensures
            r.wf(),
            r.contents() is None,
    {
        AliveBuilder { cells: None }
    }

    /// Handles one message; on `Finish` returns the completed set.
    pub fn handle(&mut self, message: Message) -> (r: Option<KeySet>)
        requires
            old(self).wf(),
        ensures
            final(self).wf(),
            held_finite(r),
            final(self).contents() == alive_builder_step(old(self).contents(), message),
            held(r) == builder_reply(old(self).contents(), message),
    {
        match message {
            Message::Start(_) => {
                proof {
                    lemma_cells_of_empty();
                }
                self.cells = Some(empty_key_set());
                None
            },
            Message::Add(cell) => {
                match &mut self.cells {
                    Some(set) => {
                        proof {
                            lemma_cells_of_insert(set@, cell);
                        }
                        insert_key(set, cell.key());
                    },
                    None => {},
                }
                None
            },
            Message::Finish => self.cells.take(),
        }
    }
}

impl FrontierBuilder {
    pub closed spec fn spec_cols(&self) -> u32 {
        self.cols
    }

    pub closed spec fn spec_rows(&self) -> u32 {
        self.rows
    }

    /// The set under construction, if a generation has started.
    pub closed spec fn contents(&self) -> Option<Set<Cell>> {
        held(self.cells)
    }

    pub closed spec fn wf(&self) -> bool {
        held_finite(self.cells)
    }

    pub fn new(cols: u32, rows: u32) -> (r: FrontierBuilder)
        ensures
            r.wf(),
            r.contents() is None,
            r.spec_cols() == cols,
            r.spec_rows() == rows,
    {
        FrontierBuilder { cols, rows, cells: None, buf: Vec::new() }
    }

    /// Handles one message; on `Finish` returns the completed set.
    pub fn handle(&mut self, message: Message) -> (r: Option<KeySet>)
        requires
            old(self).wf(),
        ensures
            final(self).wf(),
            held_finite(r),
            final(self).spec_cols() == old(self).spec_cols(),
            final(self).spec_rows() == old(self).spec_rows(),
            final(self).contents() == frontier_builder_step(
                old(self).contents(),
                message,
                old(self).spec_cols(),
                old(self).spec_rows(),
            ),
            held(r) == builder_reply(old(self).contents(), message),
    {
        match message {
            Message::Start(_) => {
                proof {
                    lemma_cells_of_empty();
                }
                self.cells = Some(empty_key_set());
                None
            },
            Message::Add(cell) => {
                match &mut self.cells {
                    Some(set) => {
                        insert_with_neighbours(set, cell, self.cols, self.rows, &mut self.buf);
                    },
                    None => {},
                }
                None
            },
            Message::Finish => self.cells.take(),
        }
    }
}

/// Feeds `msgs` to the alive builder and returns the set it hands back on the
/// closing `Finish`.
pub(crate) fn run_alive_builder(b: &mut AliveBuilder, msgs: &Vec<Message>) -> (r: KeySet)
    requires
        old(b).wf(),
        msgs@.len() >= 2,
        msgs@[0] is Start,
        msgs@.last() == Message::Finish,
        forall|i: int| 0 <= i < msgs@.len() - 1 ==> #[trigger] msgs@[i] != Message::Finish,
    ensures
        final(b).wf(),
        Some(cells_of(r@)) == feed_alive(None, msgs@.drop_last()),
        r@.finite(),
{
    let n = msgs.len() - 1;
    let mut i: usize = 0;
    while i < n
        invariant
            i <= n,
            n == msgs@.len() - 1,
            msgs@[0] is Start,
            forall|j: int| 0 <= j < msgs@.len() - 1 ==> #[trigger] msgs@[j] != Message::Finish,
            i >= 1 ==> b.contents() is Some,
            b.wf(),
            i >= 1 ==> b.contents() == feed_alive(None, msgs@.take(i as int)),
        decreases n - i,
    {
        proof {
            assert(msgs@.take(i as int + 1).drop_last() =~= msgs@.take(i as int));
        }
        let _ = b.handle(msgs[i]);
        i = i + 1;
    }
    assert(msgs@.take(n as int) =~= msgs@.drop_last());
    let r = b.handle(msgs[n]);
    r.unwrap()
}

/// Feeds `msgs` to the frontier builder and returns the set it hands back on the
/// closing `Finish`.
pub(crate) fn run_frontier_builder(b: &mut FrontierBuilder, msgs: &Vec<Message>) -> (r: KeySet)
    requires
        old(b).wf(),
        msgs@.len() >= 2,
        msgs@[0] is Start,
        msgs@.last() == Message::Finish,
        forall|i: int| 0 <= i < msgs@.len() - 1 ==> #[trigger] msgs@[i] != Message::Finish,
    ensures
        final(b).wf(),
        final(b).spec_cols() == old(b).spec_cols(),
        final(b).spec_rows() == old(b).spec_rows(),
        Some(cells_of(r@)) == feed_frontier(
            None,
            msgs@.drop_last(),
            old(b).spec_cols(),
            old(b).spec_rows(),
        ),
        r@.finite(),
{
    let n = msgs.len() - 1;
    let mut i: usize = 0;
    while i < n
        invariant
            i <= n,
            n == msgs@.len() - 1,
            msgs@[0] is Start,
            forall|j: int| 0 <= j < msgs@.len() - 1 ==> #[trigger] msgs@[j] != Message::Finish,
            i >= 1 ==> b.contents() is Some,
            b.wf(),
            b.spec_cols() == old(b).spec_cols(),
            b.spec_rows() == old(b).spec_rows(),
            i >= 1 ==> b.contents() == feed_frontier(
                None,
                msgs@.take(i as int),
                b.spec_cols(),
                b.spec_rows(),
            ),
        decreases n - i,
    {
        proof {
            assert(msgs@.take(i as int + 1).drop_last() =~= msgs@.take(i as int));
        }
        let _ = b.handle(msgs[i]);
        i = i + 1;
    }
    assert(msgs@.take(n as int) =~= msgs@.drop_last());
    let r = b.handle(msgs[n]);
    r.unwrap()
}

} // verus!
