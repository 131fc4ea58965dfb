//! One generation of the sparse engine, stated over sets of cells.
use crate::cell::{
    Cell, cells_of, in_bounds, is_neighbour, key_of, lemma_key_injective, lemma_neighbours_adjacent,
    neighbours,
};
use vstd::prelude::*;

verus! {

/// How many cells of `s` are alive.
pub open spec fn live_count(s: Seq<Cell>, alive: Set<Cell>) -> nat
    decreases s.len(),
{
    if s.len() == 0 {
        0
    } else {
        live_count(s.drop_last(), alive) + if alive.contains(s.last()) {
            1nat
        } else {
            0nat
        }
    }
}

/// How many neighbours of `c` are alive.
pub open spec fn live_neighbours(alive: Set<Cell>, c: Cell, cols: u32, rows: u32) -> nat {
    live_count(neighbours(c, cols, rows), alive)
}

/// Conway's rule: a live cell with two or three live neighbours survives, a dead
/// cell with exactly three is born, every other cell is dead afterwards.
pub open spec fn lives_next(alive: Set<Cell>, c: Cell, cols: u32, rows: u32) -> bool {
    let n = live_neighbours(alive, c, cols, rows);
    if alive.contains(c) {
        n == 2 || n == 3
    } else {
        n == 3
    }
}

/// `c` is born or dies under the rule.
pub open spec fn changes(alive: Set<Cell>, c: Cell, cols: u32, rows: u32) -> bool {
    lives_next(alive, c, cols, rows) != alive.contains(c)
}

/// `n` is `c` itself or one of its neighbours.
pub open spec fn touches(c: Cell, n: Cell, cols: u32, rows: u32) -> bool {
    n == c || neighbours(c, cols, rows).contains(n)
}

/// `c` together with its neighbours.
pub open spec fn touched(c: Cell, cols: u32, rows: u32) -> Set<Cell> {
    Set::new(|n: Cell| touches(c, n, cols, rows))
}

/// The cells of `cells` together with all their neighbours.
pub open spec fn with_neighbours(cells: Set<Cell>, cols: u32, rows: u32) -> Set<Cell> {
    Set::new(|n: Cell| exists|c: Cell| cells.contains(c) && #[trigger] touches(c, n, cols, rows))
}

/// The alive set after one generation: a frontier cell is alive exactly when the
/// rule keeps it alive or brings it to life; a cell outside the frontier is not
/// evaluated and keeps its state.
pub open spec fn next_alive(alive: Set<Cell>, frontier: Set<Cell>, cols: u32, rows: u32) -> Set<
    Cell,
> {
    Set::new(
        |c: Cell|
            if frontier.contains(c) {
                lives_next(alive, c, cols, rows)
            } else {
                alive.contains(c)
            },
    )
}

/// The cells of `evaluated` that the rule keeps alive or brings to life.
pub open spec fn evaluated_alive(
    alive: Set<Cell>,
    evaluated: Set<Cell>,
    cols: u32,
    rows: u32,
) -> Set<Cell> {
    Set::new(|c: Cell| evaluated.contains(c) && lives_next(alive, c, cols, rows))
}

/// The live cells that lie outside the frontier, carried over unevaluated.
pub open spec fn kept_alive(alive: Set<Cell>, frontier: Set<Cell>) -> Set<Cell> {
    alive.difference(frontier)
}

/// The next alive set is the live cells outside the frontier together with the
/// frontier cells that the rule keeps alive.
pub proof fn lemma_next_alive_split(alive: Set<Cell>, frontier: Set<Cell>, cols: u32, rows: u32)
    ensures
        next_alive(alive, frontier, cols, rows) == kept_alive(alive, frontier).union(
            evaluated_alive(alive, frontier, cols, rows),
        ),
{
    assert(next_alive(alive, frontier, cols, rows) =~= kept_alive(alive, frontier).union(
        evaluated_alive(alive, frontier, cols, rows),
    ));
}

/// The frontier cells that are born or die in this generation.
pub open spec fn changed(alive: Set<Cell>, frontier: Set<Cell>, cols: u32, rows: u32) -> Set<
    Cell,
> {
    Set::new(|c: Cell| frontier.contains(c) && changes(alive, c, cols, rows))
}

/// The frontier after one generation: every cell that was born or died, with its
/// neighbours. A cell that merely survives is not put back.
pub open spec fn next_frontier(alive: Set<Cell>, frontier: Set<Cell>, cols: u32, rows: u32) -> Set<
    Cell,
> {
    with_neighbours(changed(alive, frontier, cols, rows), cols, rows)
}

/// Adding one cell to `cells` adds that cell and its neighbours to `with_neighbours`.
pub proof fn lemma_with_neighbours_insert(cells: Set<Cell>, c: Cell, cols: u32, rows: u32)
    ensures
        with_neighbours(cells.insert(c), cols, rows) == with_neighbours(cells, cols, rows).union(
            touched(c, cols, rows),
        ),
{
    let lhs = with_neighbours(cells.insert(c), cols, rows);
    let rhs = with_neighbours(cells, cols, rows).union(touched(c, cols, rows));
    assert forall|n: Cell| lhs.contains(n) implies rhs.contains(n) by {
        let d = choose|d: Cell| cells.insert(c).contains(d) && #[trigger] touches(d, n, cols, rows);
        if d != c {
            assert(cells.contains(d));
        }
    }
    assert forall|n: Cell| rhs.contains(n) implies lhs.contains(n) by {
        if touched(c, cols, rows).contains(n) {
            assert(cells.insert(c).contains(c) && touches(c, n, cols, rows));
        } else {
            let d = choose|d: Cell| cells.contains(d) && #[trigger] touches(d, n, cols, rows);
            assert(cells.insert(c).contains(d));
        }
    }
    assert(lhs =~= rhs);
}

/// Storing a cell's key adds that cell to the cells a key set stands for.
pub proof fn lemma_cells_of_insert(keys: Set<u64>, c: Cell)
    ensures
        cells_of(keys.insert(key_of(c))) == cells_of(keys).insert(c),
{
    assert forall|d: Cell| #[trigger]
        cells_of(keys.insert(key_of(c))).contains(d) == cells_of(keys).insert(c).contains(d) by {
        lemma_key_injective(c, d);
    }
    assert(cells_of(keys.insert(key_of(c))) =~= cells_of(keys).insert(c));
}

/// A cell inside the grid touches only cells inside the grid.
pub proof fn lemma_touched_in_bounds(c: Cell, cols: u32, rows: u32)
    requires
        in_bounds(c, cols, rows),
    ensures
        forall|n: Cell| #[trigger] touched(c, cols, rows).contains(n) ==> in_bounds(n, cols, rows),
{
    lemma_neighbours_adjacent(c, cols, rows);
}

/// One generation keeps every cell inside the grid: where the alive set and the
/// frontier hold only cells inside the grid, so do the next alive set and frontier.
pub proof fn lemma_bounds_closed(alive: Set<Cell>, frontier: Set<Cell>, cols: u32, rows: u32)
    requires
        forall|c: Cell| #[trigger] alive.contains(c) ==> in_bounds(c, cols, rows),
        forall|c: Cell| #[trigger] frontier.contains(c) ==> in_bounds(c, cols, rows),
    ensures
        forall|c: Cell| #[trigger]
            next_alive(alive, frontier, cols, rows).contains(c) ==> in_bounds(c, cols, rows),
        forall|c: Cell| #[trigger]
            next_frontier(alive, frontier, cols, rows).contains(c) ==> in_bounds(c, cols, rows),
{
    assert forall|n: Cell| #[trigger]
        next_frontier(alive, frontier, cols, rows).contains(n) implies in_bounds(n, cols, rows) by {
        let c = choose|c: Cell|
            changed(alive, frontier, cols, rows).contains(c) && #[trigger] touches(c, n, cols, rows);
        lemma_neighbours_adjacent(c, cols, rows);
    }
}

/// On every frontier cell the next generation follows Conway's rule: a dead cell
/// with exactly three live neighbours is born, a live cell with two or three
/// survives, a live cell with any other count dies, and a dead cell with any other
/// count stays dead.
pub proof fn lemma_rule_on_frontier(
    alive: Set<Cell>,
    frontier: Set<Cell>,
    c: Cell,
    cols: u32,
    rows: u32,
)
    requires
        frontier.contains(c),
    ensures
        !alive.contains(c) && live_neighbours(alive, c, cols, rows) == 3 ==> next_alive(
            alive,
            frontier,
            cols,
            rows,
        ).contains(c),
        alive.contains(c) && (live_neighbours(alive, c, cols, rows) == 2 || live_neighbours(
            alive,
            c,
            cols,
            rows,
        ) == 3) ==> next_alive(alive, frontier, cols, rows).contains(c),
        alive.contains(c) && live_neighbours(alive, c, cols, rows) != 2 && live_neighbours(
            alive,
            c,
            cols,
            rows,
        ) != 3 ==> !next_alive(alive, frontier, cols, rows).contains(c),
        !alive.contains(c) && live_neighbours(alive, c, cols, rows) != 3 ==> !next_alive(
            alive,
            frontier,
            cols,
            rows,
        ).contains(c),
{
}

/// The state after `n` generations from `alive` and `frontier`.
pub open spec fn generations(
    alive: Set<Cell>,
    frontier: Set<Cell>,
    cols: u32,
    rows: u32,
    n: nat,
) -> (Set<Cell>, Set<Cell>)
    decreases n,
{
    if n == 0 {
        (alive, frontier)
    } else {
        let (a, f) = generations(alive, frontier, cols, rows, (n - 1) as nat);
        (next_alive(a, f, cols, rows), next_frontier(a, f, cols, rows))
    }
}

/// A still life persists: where no frontier cell would change, the live cells stay
/// as they are in every later generation, and the frontier is empty from the
/// first generation on.
pub proof fn lemma_still_life_persists(
    alive: Set<Cell>,
    frontier: Set<Cell>,
    cols: u32,
    rows: u32,
    n: nat,
)
    requires
        forall|c: Cell| #[trigger] frontier.contains(c) ==> !changes(alive, c, cols, rows),
    ensures
        generations(alive, frontier, cols, rows, n).0 == alive,
        n >= 1 ==> generations(alive, frontier, cols, rows, n).1 == Set::<Cell>::empty(),
    decreases n,
{
    if n > 0 {
        lemma_still_life_persists(alive, frontier, cols, rows, (n - 1) as nat);
        let f = generations(alive, frontier, cols, rows, (n - 1) as nat).1;
        assert(next_alive(alive, f, cols, rows) =~= alive);
        assert(changed(alive, f, cols, rows) =~= Set::<Cell>::empty());
        assert(next_frontier(alive, f, cols, rows) =~= Set::<Cell>::empty());
    }
}

/// Conway's successor of `alive` over the whole grid.
pub open spec fn life(alive: Set<Cell>, cols: u32, rows: u32) -> Set<Cell> {
    Set::new(|c: Cell| in_bounds(c, cols, rows) && lives_next(alive, c, cols, rows))
}

/// The pruning invariant: every cell of the grid that the rule would change lies
/// in the frontier.
pub open spec fn frontier_complete(
    alive: Set<Cell>,
    frontier: Set<Cell>,
    cols: u32,
    rows: u32,
) -> bool {
    forall|c: Cell|
        in_bounds(c, cols, rows) && #[trigger] changes(alive, c, cols, rows) ==> frontier.contains(
            c,
        )
}

pub open spec fn all_in_bounds(cells: Set<Cell>, cols: u32, rows: u32) -> bool {
    forall|c: Cell| #[trigger] cells.contains(c) ==> in_bounds(c, cols, rows)
}

/// Adjacency is symmetric inside the grid.
pub proof fn lemma_neighbour_symmetric(c: Cell, n: Cell, cols: u32, rows: u32)
    requires
        in_bounds(c, cols, rows),
        neighbours(c, cols, rows).contains(n),
    ensures
        neighbours(n, cols, rows).contains(c),
{
    lemma_neighbours_adjacent(c, cols, rows);
    crate::cell::lemma_adjacent_is_neighbour(n, c, cols, rows);
}

/// Two alive sets that agree on the cells of `s` count the same live cells in it.
pub proof fn lemma_live_count_agree(s: Seq<Cell>, a: Set<Cell>, b: Set<Cell>)
    requires
        forall|i: int| 0 <= i < s.len() ==> (a.contains(#[trigger] s[i]) <==> b.contains(s[i])),
    ensures
        live_count(s, a) == live_count(s, b),
    decreases s.len(),
{
    if s.len() > 0 {
        assert(a.contains(s[s.len() - 1]) <==> b.contains(s[s.len() - 1]));
        lemma_live_count_agree(s.drop_last(), a, b);
    }
}

/// Where the two alive sets agree on `c` and on all its neighbours, the rule
/// decides `c` alike under both.
proof fn lemma_rule_local(a: Set<Cell>, b: Set<Cell>, c: Cell, cols: u32, rows: u32)
    requires
        a.contains(c) <==> b.contains(c),
        forall|n: Cell|
            #[trigger] neighbours(c, cols, rows).contains(n) ==> (a.contains(n) <==> b.contains(n)),
    ensures
        lives_next(a, c, cols, rows) == lives_next(b, c, cols, rows),
        changes(a, c, cols, rows) == changes(b, c, cols, rows),
{
    let s = neighbours(c, cols, rows);
    assert forall|i: int| 0 <= i < s.len() implies (a.contains(#[trigger] s[i]) <==> b.contains(
        s[i],
    )) by {
        assert(s.contains(s[i]));
    }
    lemma_live_count_agree(s, a, b);
}

/// Under the pruning invariant one generation is Conway's successor over the
/// whole grid: pruning the evaluation to the frontier changes nothing.
pub proof fn lemma_complete_frontier_gives_life(
    alive: Set<Cell>,
    frontier: Set<Cell>,
    cols: u32,
    rows: u32,
)
    requires
        all_in_bounds(alive, cols, rows),
        all_in_bounds(frontier, cols, rows),
        frontier_complete(alive, frontier, cols, rows),
    ensures
        next_alive(alive, frontier, cols, rows) == life(alive, cols, rows),
{
    assert forall|c: Cell| #[trigger]
        next_alive(alive, frontier, cols, rows).contains(c) == life(alive, cols, rows).contains(
            c,
        ) by {
        if !frontier.contains(c) && in_bounds(c, cols, rows) {
            assert(!changes(alive, c, cols, rows));
        }
    }
    assert(next_alive(alive, frontier, cols, rows) =~= life(alive, cols, rows));
}

/// One generation keeps the pruning invariant.
pub proof fn lemma_step_keeps_frontier_complete(
    alive: Set<Cell>,
    frontier: Set<Cell>,
    cols: u32,
    rows: u32,
)
    requires
        all_in_bounds(alive, cols, rows),
        all_in_bounds(frontier, cols, rows),
        frontier_complete(alive, frontier, cols, rows),
    ensures
        frontier_complete(
            next_alive(alive, frontier, cols, rows),
            next_frontier(alive, frontier, cols, rows),
            cols,
            rows,
        ),
{
    let a2 = next_alive(alive, frontier, cols, rows);
    let f2 = next_frontier(alive, frontier, cols, rows);
    let ch = changed(alive, frontier, cols, rows);
    assert forall|c: Cell| in_bounds(c, cols, rows) && #[trigger] changes(a2, c, cols, rows) implies f2.contains(c) by {
        if !f2.contains(c) {
            // Neither `c` nor any neighbour of it changed in this generation.
            assert(!(ch.contains(c) && touches(c, c, cols, rows)));
            assert(alive.contains(c) <==> a2.contains(c));
            assert forall|n: Cell| #[trigger] neighbours(c, cols, rows).contains(n) implies (
            alive.contains(n) <==> a2.contains(n)) by {
                lemma_neighbour_symmetric(c, n, cols, rows);
                assert(!(ch.contains(n) && touches(n, c, cols, rows)));
            }
            lemma_rule_local(alive, a2, c, cols, rows);
            assert(ch.contains(c) && touches(c, c, cols, rows));
        }
    }
}

/// Activating a cell inside the grid keeps the pruning invariant.
pub proof fn lemma_activation_keeps_frontier_complete(
    alive: Set<Cell>,
    frontier: Set<Cell>,
    c: Cell,
    cols: u32,
    rows: u32,
)
    requires
        in_bounds(c, cols, rows),
        frontier_complete(alive, frontier, cols, rows),
    ensures
        frontier_complete(alive.insert(c), frontier.union(touched(c, cols, rows)), cols, rows),
{
    let a2 = alive.insert(c);
    let f2 = frontier.union(touched(c, cols, rows));
    assert forall|d: Cell| in_bounds(d, cols, rows) && #[trigger] changes(a2, d, cols, rows) implies f2.contains(d) by {
        if !f2.contains(d) {
            assert(!touches(c, d, cols, rows));
            assert forall|n: Cell| #[trigger] neighbours(d, cols, rows).contains(n) implies (
            alive.contains(n) <==> a2.contains(n)) by {
                if n == c {
                    lemma_neighbour_symmetric(d, n, cols, rows);
                }
            }
            lemma_rule_local(alive, a2, d, cols, rows);
        }
    }
}

/// An empty grid meets the pruning invariant with an empty frontier.
pub proof fn lemma_empty_frontier_complete(cols: u32, rows: u32)
    ensures
        frontier_complete(Set::<Cell>::empty(), Set::<Cell>::empty(), cols, rows),
{
    assert forall|c: Cell| in_bounds(c, cols, rows) && #[trigger] changes(
        Set::<Cell>::empty(),
        c,
        cols,
        rows,
    ) implies false by {
        lemma_live_count_zero(neighbours(c, cols, rows));
    }
}

proof fn lemma_live_count_zero(s: Seq<Cell>)
    ensures
        live_count(s, Set::<Cell>::empty()) == 0,
    decreases s.len(),
{
    if s.len() > 0 {
        lemma_live_count_zero(s.drop_last());
    }
}

/// Activating `c` puts every cell adjacent to it into the frontier, so a settled
/// region next to `c` is evaluated again in the next generation.
pub proof fn lemma_activation_wakes_neighbours(
    frontier: Set<Cell>,
    c: Cell,
    n: Cell,
    cols: u32,
    rows: u32,
)
    requires
        is_neighbour(c, n, cols, rows),
    ensures
        frontier.union(touched(c, cols, rows)).contains(n),
{
    crate::cell::lemma_adjacent_is_neighbour(c, n, cols, rows);
}

} // verus!
