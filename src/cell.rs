//! Grid coordinates, their integer keys, and the clipped Moore neighbourhood.
use vstd::arithmetic::div_mod::{lemma_fundamental_div_mod, lemma_fundamental_div_mod_converse};
use vstd::prelude::*;

verus! {

/// One grid coordinate. Two cells with equal coordinates are the same cell.
#[derive(Clone, Copy, PartialEq, Eq, Structural, PartialOrd, Ord, Hash, Debug)]
pub struct Cell {
    pub x: u32,
    pub y: u32,
}

/// Size of the key range given to one column: a key is `x * KEY_STRIDE + y`.
pub const KEY_STRIDE: u64 = 0x1_0000_0000;

/// A cell lies inside a grid of `cols` columns and `rows` rows.
pub open spec fn within(x: int, y: int, cols: u32, rows: u32) -> bool {
    0 <= x < cols && 0 <= y < rows
}

pub open spec fn in_bounds(c: Cell, cols: u32, rows: u32) -> bool {
    within(c.x as int, c.y as int, cols, rows)
}

/// The integer under which a cell is stored in a set.
pub open spec fn key_of(c: Cell) -> u64 {
    (c.x as int * KEY_STRIDE as int + c.y as int) as u64
}

/// The cell that a key stands for.
pub open spec fn cell_of(k: u64) -> Cell {
    Cell { x: (k as int / KEY_STRIDE as int) as u32, y: (k as int % KEY_STRIDE as int) as u32 }
}

/// The cells whose keys a set of keys holds.
pub open spec fn cells_of(keys: Set<u64>) -> Set<Cell> {
    Set::new(|c: Cell| keys.contains(key_of(c)))
}

pub proof fn lemma_key_of_cell(c: Cell)
    ensures
        cell_of(key_of(c)) == c,
        key_of(c) as int == c.x as int * KEY_STRIDE as int + c.y as int,
{
    let k = c.x as int * KEY_STRIDE as int + c.y as int;
    assert(0 <= k < 0x1_0000_0000_0000_0000) by (nonlinear_arith)
        requires
            k == c.x as int * 0x1_0000_0000 + c.y as int,
            0 <= c.x < 0x1_0000_0000,
            0 <= c.y < 0x1_0000_0000,
    ;
    lemma_fundamental_div_mod_converse(k, KEY_STRIDE as int, c.x as int, c.y as int);
}

pub proof fn lemma_cell_of_key(k: u64)
    ensures
        key_of(cell_of(k)) == k,
{
    let d = KEY_STRIDE as int;
    lemma_fundamental_div_mod(k as int, d);
    let q = k as int / d;
    let r = k as int % d;
    assert(0 <= q < d && 0 <= r < d) by (nonlinear_arith)
        requires
            k as int == d * q + r,
            0 <= r < d,
            d == 0x1_0000_0000,
            0 <= k < 0x1_0000_0000_0000_0000,
    ;
    assert(k as int == q * d + r) by (nonlinear_arith)
        requires
            k as int == d * q + r,
    ;
}

/// Different cells have different keys.
pub proof fn lemma_key_injective(a: Cell, b: Cell)
    ensures
        key_of(a) == key_of(b) <==> a == b,
{
    lemma_key_of_cell(a);
    lemma_key_of_cell(b);
}

/// The one-cell sequence holding `(x, y)` where that lies inside the grid, else empty.
pub open spec fn cell_if_within(x: int, y: int, cols: u32, rows: u32) -> Seq<Cell> {
    if within(x, y, cols, rows) {
        seq![Cell { x: x as u32, y: y as u32 }]
    } else {
        Seq::empty()
    }
}

/// The Moore neighbourhood of `c`, clipped at the grid's edges, column by column
/// from the left and, inside a column, from the top.
pub open spec fn neighbours(c: Cell, cols: u32, rows: u32) -> Seq<Cell> {
    let x = c.x as int;
    let y = c.y as int;
    cell_if_within(x - 1, y - 1, cols, rows) + cell_if_within(x - 1, y, cols, rows)
        + cell_if_within(x - 1, y + 1, cols, rows) + cell_if_within(x, y - 1, cols, rows)
        + cell_if_within(x, y + 1, cols, rows) + cell_if_within(x + 1, y - 1, cols, rows)
        + cell_if_within(x + 1, y, cols, rows) + cell_if_within(x + 1, y + 1, cols, rows)
}

/// `n` touches `c` horizontally, vertically or diagonally and lies inside the grid.
pub open spec fn is_neighbour(c: Cell, n: Cell, cols: u32, rows: u32) -> bool {
    &&& in_bounds(n, cols, rows)
    &&& n != c
    &&& c.x as int - 1 <= n.x as int <= c.x as int + 1
    &&& c.y as int - 1 <= n.y as int <= c.y as int + 1
}

/// A cell is in the neighbour sequence of `c` exactly when it is the cell one
/// step away in one of the eight directions and lies inside the grid.
proof fn lemma_neighbours_membership(c: Cell, cols: u32, rows: u32)
    ensures
        forall|n: Cell| #[trigger]
            neighbours(c, cols, rows).contains(n) <==> {
                ||| cell_if_within(c.x - 1, c.y - 1, cols, rows).contains(n)
                ||| cell_if_within(c.x - 1, c.y as int, cols, rows).contains(n)
                ||| cell_if_within(c.x - 1, c.y + 1, cols, rows).contains(n)
                ||| cell_if_within(c.x as int, c.y - 1, cols, rows).contains(n)
                ||| cell_if_within(c.x as int, c.y + 1, cols, rows).contains(n)
                ||| cell_if_within(c.x + 1, c.y - 1, cols, rows).contains(n)
                ||| cell_if_within(c.x + 1, c.y as int, cols, rows).contains(n)
                ||| cell_if_within(c.x + 1, c.y + 1, cols, rows).contains(n)
            },
{
    let x = c.x as int;
    let y = c.y as int;
    let up_left = cell_if_within(x - 1, y - 1, cols, rows);
    let left = cell_if_within(x - 1, y, cols, rows);
    let down_left = cell_if_within(x - 1, y + 1, cols, rows);
    let up = cell_if_within(x, y - 1, cols, rows);
    let down = cell_if_within(x, y + 1, cols, rows);
    let up_right = cell_if_within(x + 1, y - 1, cols, rows);
    let right = cell_if_within(x + 1, y, cols, rows);
    let down_right = cell_if_within(x + 1, y + 1, cols, rows);
    let two = up_left + left;
    let three = two + down_left;
    let four = three + up;
    let five = four + down;
    let six = five + up_right;
    let seven = six + right;
    lemma_concat_contains(up_left, left);
    lemma_concat_contains(two, down_left);
    lemma_concat_contains(three, up);
    lemma_concat_contains(four, down);
    lemma_concat_contains(five, up_right);
    lemma_concat_contains(six, right);
    lemma_concat_contains(seven, down_right);
    assert(seven + down_right == neighbours(c, cols, rows));
}

/// Every cell of the neighbour sequence touches `c` and lies inside the grid.
pub proof fn lemma_neighbours_adjacent(c: Cell, cols: u32, rows: u32)
    ensures
        forall|n: Cell| #[trigger]
            neighbours(c, cols, rows).contains(n) ==> is_neighbour(c, n, cols, rows),
{
    lemma_neighbours_membership(c, cols, rows);
}

/// Every cell adjacent to `c` inside the grid is in its neighbour sequence.
pub proof fn lemma_adjacent_is_neighbour(c: Cell, n: Cell, cols: u32, rows: u32)
    requires
        is_neighbour(c, n, cols, rows),
    ensures
        neighbours(c, cols, rows).contains(n),
{
    lemma_neighbours_membership(c, cols, rows);
    let here = cell_if_within(n.x as int, n.y as int, cols, rows);
    assert(here[0] == n);
    assert(here.contains(n));
}

/// A corner cell of a grid at least two wide and two high has exactly three
/// neighbours, all inside the grid.
pub proof fn lemma_corner_neighbours(cols: u32, rows: u32)
    requires
        cols >= 2,
        rows >= 2,
    ensures
        neighbours(Cell { x: 0, y: 0 }, cols, rows) == seq![
            Cell { x: 0, y: 1 },
            Cell { x: 1, y: 0 },
            Cell { x: 1, y: 1 },
        ],
        neighbours(Cell { x: 0, y: 0 }, cols, rows).len() == 3,
        forall|i: int|
            0 <= i < 3 ==> #[trigger] in_bounds(
                neighbours(Cell { x: 0, y: 0 }, cols, rows)[i],
                cols,
                rows,
            ),
{
    assert(neighbours(Cell { x: 0, y: 0 }, cols, rows) =~= seq![
        Cell { x: 0, y: 1 },
        Cell { x: 1, y: 0 },
        Cell { x: 1, y: 1 },
    ]);
}

proof fn lemma_concat_contains(a: Seq<Cell>, b: Seq<Cell>)
    ensures
        forall|n: Cell| #[trigger] (a + b).contains(n) <==> a.contains(n) || b.contains(n),
{
    assert forall|n: Cell| #[trigger] (a + b).contains(n) implies a.contains(n) || b.contains(n) by {
        let i = choose|i: int| 0 <= i < (a + b).len() && (a + b)[i] == n;
        if i >= a.len() {
            assert(b[i - a.len()] == n);
        }
    }
    assert forall|n: Cell| a.contains(n) || b.contains(n) implies #[trigger] (a + b).contains(n) by {
        if a.contains(n) {
            let i = choose|i: int| 0 <= i < a.len() && a[i] == n;
            assert((a + b)[i] == n);
        } else {
            let i = choose|i: int| 0 <= i < b.len() && b[i] == n;
            assert((a + b)[i + a.len()] == n);
        }
    }
}

/// Fills `container` with the neighbours of `cell` inside a `cols` by `rows` grid.
pub fn get_neighbours(cols: u32, rows: u32, cell: &Cell, container: &mut Vec<Cell>)
    ensures
        final(container)@ == neighbours(*cell, cols, rows),
{
    container.clear();
    let x = cell.x as i64;
    let y = cell.y as i64;
    push_within(cols, rows, x - 1, y - 1, container);
    push_within(cols, rows, x - 1, y, container);
    push_within(cols, rows, x - 1, y + 1, container);
    push_within(cols, rows, x, y - 1, container);
    push_within(cols, rows, x, y + 1, container);
    push_within(cols, rows, x + 1, y - 1, container);
    push_within(cols, rows, x + 1, y, container);
    push_within(cols, rows, x + 1, y + 1, container);
    assert(container@ =~= neighbours(*cell, cols, rows));
}

fn push_within(cols: u32, rows: u32, x: i64, y: i64, container: &mut Vec<Cell>)
    ensures
        final(container)@ == old(container)@ + cell_if_within(x as int, y as int, cols, rows),
{
    if 0 <= x && x < cols as i64 && 0 <= y && y < rows as i64 {
        container.push(Cell::new(x as u32, y as u32));
    }
    assert(container@ =~= old(container)@ + cell_if_within(x as int, y as int, cols, rows));
}

impl Cell {
    pub fn new(x: u32, y: u32) -> (r: Cell)
        ensures
            r.x == x,
            r.y == y,
    {
        Cell { x, y }
    }

    /// The key under which this cell is stored in a set.
    pub fn key(&self) -> (r: u64)
        ensures
            r == key_of(*self),
    {
        proof {
            lemma_key_of_cell(*self);
        }
        self.x as u64 * KEY_STRIDE + self.y as u64
    }

    /// The cell stored under key `k`.
    pub fn from_key(k: u64) -> (r: Cell)
        ensures
            r == cell_of(k),
            key_of(r) == k,
    {
        proof {
            lemma_cell_of_key(k);
        }
        Cell { x: (k / KEY_STRIDE) as u32, y: (k % KEY_STRIDE) as u32 }
    }
}

} // verus!
