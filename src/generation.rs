//! The executable generation step shared by the engines and the frontier builder.
use crate::cell::{Cell, cells_of, get_neighbours, key_of, neighbours};
use crate::cell_set::{contains_key, empty_key_set, insert_key, keys_of, KeySet};
use crate::rules::{
    changed, changes, lemma_cells_of_insert, lemma_with_neighbours_insert, live_count,
    live_neighbours, lives_next, next_alive, next_frontier, touched, evaluated_alive, kept_alive,
    lemma_next_alive_split,
};
use vstd::prelude::*;

verus! {

/// Counts the cells of `cells` whose keys are in `alive`.
pub(crate) fn count_alive(alive: &KeySet, cells: &Vec<Cell>) -> (r: usize)
    ensures
        r == live_count(cells@, cells_of(alive@)),
{
    let ghost a = cells_of(alive@);
    let mut count: usize = 0;
    let mut i: usize = 0;
    while i < cells.len()
        invariant
            i <= cells.len(),
            count <= i,
            a == cells_of(alive@),
            count == live_count(cells@.take(i as int), a),
        decreases cells.len() - i,
    {
        let c = cells[i];
        let here = contains_key(alive, c.key());
        proof {
            let t = cells@.take(i as int + 1);
            assert(t.drop_last() =~= cells@.take(i as int));
            assert(t.last() == c);
            assert(here == a.contains(c));
            assert(live_count(t, a) == live_count(cells@.take(i as int), a) + if a.contains(c) {
                1nat
            } else {
                0nat
            });
        }
        if here {
            count = count + 1;
        }
        i = i + 1;
    }
    assert(cells@.take(i as int) =~= cells@);
    count
}

/// `m` is among the first `j` cells of `s`, or is the next one.
pub proof fn lemma_take_one_more<T>(s: Seq<T>, j: int, m: T)
    requires
        0 <= j < s.len(),
    ensures
        s.take(j + 1).contains(m) <==> s.take(j).contains(m) || m == s[j],
{
    let t = s.take(j);
    assert(s.take(j + 1) =~= t.push(s[j]));
    if t.push(s[j]).contains(m) && m != s[j] {
        let k = choose|k: int| 0 <= k < t.push(s[j]).len() && t.push(s[j])[k] == m;
        assert(t[k] == m);
    }
    if t.contains(m) {
        let k = choose|k: int| 0 <= k < t.len() && t[k] == m;
        assert(t.push(s[j])[k] == m);
    }
    if m == s[j] {
        assert(t.push(s[j])[j] == m);
    }
}

/// Inserts `cell` and its neighbours into `set`; `buf` is scratch space.
pub(crate) fn insert_with_neighbours(
    set: &mut KeySet,
    cell: Cell,
    cols: u32,
    rows: u32,
    buf: &mut Vec<Cell>,
)
    ensures
        cells_of(final(set)@) == cells_of(old(set)@).union(touched(cell, cols, rows)),
        old(set)@.finite() ==> final(set)@.finite(),
{
    let ghost start = cells_of(set@);
    proof {
        lemma_cells_of_insert(set@, cell);
    }
    insert_key(set, cell.key());
    get_neighbours(cols, rows, &cell, buf);
    let ghost nb = buf@;
    let mut j: usize = 0;
    while j < buf.len()
        invariant
            j <= buf.len(),
            buf@ == nb,
            old(set)@.finite() ==> set@.finite(),
            nb == neighbours(cell, cols, rows),
            forall|n: Cell| #[trigger]
                cells_of(set@).contains(n) <==> start.contains(n) || n == cell || nb.take(
                    j as int,
                ).contains(n),
        decreases buf.len() - j,
    {
        let n = buf[j];
        proof {
            lemma_cells_of_insert(set@, n);
            assert forall|m: Cell| #[trigger] nb.take(j as int + 1).contains(m) <==> (nb.take(
                j as int,
            ).contains(m) || m == n) by {
                lemma_take_one_more(nb, j as int, m);
            }
        }
        insert_key(set, n.key());
        j = j + 1;
    }
    assert(nb.take(j as int) =~= nb);
    assert(cells_of(set@) =~= start.union(touched(cell, cols, rows)));
}

/// Builds the next alive set and the next frontier: carries over the live cells
/// outside the frontier, then evaluates each frontier cell once against `alive`.
pub(crate) fn advance(alive: &KeySet, frontier: &KeySet, cols: u32, rows: u32) -> (r: (
    KeySet,
    KeySet,
))
    ensures
        cells_of(r.0@) == next_alive(cells_of(alive@), cells_of(frontier@), cols, rows),
        cells_of(r.1@) == next_frontier(cells_of(alive@), cells_of(frontier@), cols, rows),
        r.0@.finite(),
        r.1@.finite(),
{
    let ghost a = cells_of(alive@);
    let ghost f = cells_of(frontier@);
    let mut alive_next = carry_over(alive, frontier);
    let keys = keys_of(frontier);
    let mut frontier_next = empty_key_set();
    let mut around: Vec<Cell> = Vec::new();
    let mut buf: Vec<Cell> = Vec::new();
    let ghost mut seen: Set<Cell> = Set::empty();
    proof {
        assert(evaluated_alive(a, seen, cols, rows) =~= Set::empty());
        assert(kept_alive(a, f).union(Set::empty()) =~= kept_alive(a, f));
        assert(changed(a, seen, cols, rows) =~= Set::empty());
        assert(next_frontier(a, seen, cols, rows) =~= Set::empty());
        lemma_cells_of_empty();
    }
    let mut i: usize = 0;
    while i < keys.len()
        invariant
            i <= keys.len(),
            a == cells_of(alive@),
            f == cells_of(frontier@),
            keys@.to_set() == frontier@,
            forall|c: Cell| #[trigger]
                seen.contains(c) <==> keys@.take(i as int).contains(key_of(c)),
            cells_of(alive_next@) == kept_alive(a, f).union(evaluated_alive(a, seen, cols, rows)),
            cells_of(frontier_next@) == next_frontier(a, seen, cols, rows),
            alive_next@.finite(),
            frontier_next@.finite(),
        decreases keys.len() - i,
    {
        let k = keys[i];
        let cell = Cell::from_key(k);
        let is_alive = contains_key(alive, k);
        get_neighbours(cols, rows, &cell, &mut around);
        let count = count_alive(alive, &around);
        proof {
            assert(is_alive == a.contains(cell));
            assert(count == live_neighbours(a, cell, cols, rows));
            lemma_cells_of_insert(alive_next@, cell);
            lemma_step_insert(a, seen, cell, cols, rows);
            assert forall|c: Cell| #[trigger]
                seen.insert(cell).contains(c) <==> keys@.take(i as int + 1).contains(key_of(c)) by {
                lemma_take_one_more(keys@, i as int, key_of(c));
                crate::cell::lemma_key_injective(c, cell);
            }
        }
        if is_alive {
            if count == 2 || count == 3 {
                insert_key(&mut alive_next, k);
            } else {
                insert_with_neighbours(&mut frontier_next, cell, cols, rows, &mut buf);
            }
        } else if count == 3 {
            insert_key(&mut alive_next, k);
            insert_with_neighbours(&mut frontier_next, cell, cols, rows, &mut buf);
        }
        proof {
            seen = seen.insert(cell);
        }
        i = i + 1;
    }
    proof {
        assert(keys@.take(i as int) =~= keys@);
        assert forall|c: Cell| #[trigger] seen.contains(c) == cells_of(frontier@).contains(c) by {
            assert(keys@.to_set().contains(key_of(c)) == keys@.contains(key_of(c)));
        }
        assert(seen =~= cells_of(frontier@));
        lemma_next_alive_split(a, f, cols, rows);
        assert(cells_of(alive_next@) =~= next_alive(a, f, cols, rows));
    }
    (alive_next, frontier_next)
}

/// A set holding the live cells that lie outside the frontier.
fn carry_over(alive: &KeySet, frontier: &KeySet) -> (r: KeySet)
    ensures
        cells_of(r@) == kept_alive(cells_of(alive@), cells_of(frontier@)),
        r@.finite(),
{
    let ghost a = cells_of(alive@);
    let ghost f = cells_of(frontier@);
    let keys = keys_of(alive);
    let mut kept = empty_key_set();
    proof {
        lemma_cells_of_empty();
    }
    let mut i: usize = 0;
    while i < keys.len()
        invariant
            i <= keys.len(),
            a == cells_of(alive@),
            f == cells_of(frontier@),
            keys@.to_set() == alive@,
            kept@.finite(),
            forall|c: Cell| #[trigger]
                cells_of(kept@).contains(c) <==> (keys@.take(i as int).contains(key_of(c))
                    && !f.contains(c)),
        decreases keys.len() - i,
    {
        let k = keys[i];
        let cell = Cell::from_key(k);
        proof {
            lemma_cells_of_insert(kept@, cell);
            assert forall|c: Cell| #[trigger] keys@.take(i as int + 1).contains(key_of(c)) <==> (
            keys@.take(i as int).contains(key_of(c)) || c == cell) by {
                lemma_take_one_more(keys@, i as int, key_of(c));
                crate::cell::lemma_key_injective(c, cell);
            }
        }
        if !contains_key(frontier, k) {
            insert_key(&mut kept, k);
        }
        i = i + 1;
    }
    proof {
        assert(keys@.take(i as int) =~= keys@);
        assert forall|c: Cell| #[trigger] cells_of(kept@).contains(c) == kept_alive(a, f).contains(c) by {
            assert(keys@.to_set().contains(key_of(c)) == keys@.contains(key_of(c)));
        }
        assert(cells_of(kept@) =~= kept_alive(a, f));
    }
    kept
}

/// An empty key set stands for no cell.
pub proof fn lemma_cells_of_empty()
    ensures
        cells_of(Set::<u64>::empty()) == Set::<Cell>::empty(),
{
    assert(cells_of(Set::<u64>::empty()) =~= Set::<Cell>::empty());
}

/// Evaluating one more cell `c` adds it to the evaluated alive cells when the rule keeps
/// it alive, and adds it with its neighbours to the next frontier when it changes.
pub proof fn lemma_step_insert(a: Set<Cell>, seen: Set<Cell>, c: Cell, cols: u32, rows: u32)
    ensures
        evaluated_alive(a, seen.insert(c), cols, rows) == if lives_next(a, c, cols, rows) {
            evaluated_alive(a, seen, cols, rows).insert(c)
        } else {
            evaluated_alive(a, seen, cols, rows)
        },
        next_frontier(a, seen.insert(c), cols, rows) == if changes(a, c, cols, rows) {
            next_frontier(a, seen, cols, rows).union(touched(c, cols, rows))
        } else {
            next_frontier(a, seen, cols, rows)
        },
{
    if lives_next(a, c, cols, rows) {
        assert(evaluated_alive(a, seen.insert(c), cols, rows) =~= evaluated_alive(a, seen, cols, rows).insert(
            c,
        ));
    } else {
        assert(evaluated_alive(a, seen.insert(c), cols, rows) =~= evaluated_alive(a, seen, cols, rows));
    }
    if changes(a, c, cols, rows) {
        assert(changed(a, seen.insert(c), cols, rows) =~= changed(a, seen, cols, rows).insert(c));
        lemma_with_neighbours_insert(changed(a, seen, cols, rows), c, cols, rows);
    } else {
        assert(changed(a, seen.insert(c), cols, rows) =~= changed(a, seen, cols, rows));
    }
}

} // verus!
