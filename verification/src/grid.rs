//! The mathematical model of the grid: nine rows of nine integer cells,
//! with 0 standing for an empty cell.

use vstd::prelude::*;

verus! {

/// Nine rows of nine cells; 0 is an empty cell, 1..=9 a placed digit.
pub type Grid = Seq<Seq<int>>;

/// `(r, c)` addresses a cell of the grid.
pub open spec fn in_grid(r: int, c: int) -> bool {
    0 <= r < 9 && 0 <= c < 9
}

/// `g` has nine rows of nine cells.
pub open spec fn is_grid(g: Grid) -> bool {
    &&& g.len() == 9
    &&& forall|r: int| 0 <= r < 9 ==> (#[trigger] g[r]).len() == 9
}

/// The model of an executable grid.
pub open spec fn grid_view(a: [[i32; 9]; 9]) -> Grid {
    Seq::new(9, |r: int| Seq::new(9, |c: int| a[r][c] as int))
}

/// First row (or column) of the box that holds row (or column) `i`.
/// Indices past the grid fall into the last box.
pub open spec fn box_start(i: int) -> int {
    if i < 3 {
        0
    } else if i < 6 {
        3
    } else {
        6
    }
}

/// Both cells lie in the same 3x3 box.
pub open spec fn same_box(r1: int, c1: int, r2: int, c2: int) -> bool {
    box_start(r1) == box_start(r2) && box_start(c1) == box_start(c2)
}

/// `(r1, c1)` comes strictly before `(r2, c2)` in row-major order.
pub open spec fn precedes(r1: int, c1: int, r2: int, c2: int) -> bool {
    r1 < r2 || (r1 == r2 && c1 < c2)
}

/// The grid with cell `(r, c)` set to `v`.
pub open spec fn with_cell(g: Grid, r: int, c: int, v: int) -> Grid {
    g.update(r, g[r].update(c, v))
}

/// No cell is empty.
pub open spec fn populated_grid(g: Grid) -> bool {
    forall|r: int, c: int| in_grid(r, c) ==> #[trigger] g[r][c] != 0
}

/// Every cell is empty or holds a digit 1..=9.
pub open spec fn digits_only(g: Grid) -> bool {
    forall|r: int, c: int| in_grid(r, c) ==> 0 <= #[trigger] g[r][c] <= 9
}

/// Every cell holds a digit 1..=9.
pub open spec fn all_digits(g: Grid) -> bool {
    forall|r: int, c: int| in_grid(r, c) ==> 1 <= #[trigger] g[r][c] <= 9
}

/// `h` keeps every placed cell of `g`: it differs from `g` only where `g` is empty.
pub open spec fn keeps_placed(g: Grid, h: Grid) -> bool {
    forall|r: int, c: int| in_grid(r, c) && #[trigger] g[r][c] != 0 ==> h[r][c] == g[r][c]
}

/// Number of empty cells among the first `k` cells in row-major order.
pub open spec fn empty_upto(g: Grid, k: nat) -> nat
    decreases k,
{
    if k == 0 {
        0
    } else {
        let i = (k - 1) as int;
        empty_upto(g, (k - 1) as nat) + if g[i / 9][i % 9] == 0 {
            1nat
        } else {
            0nat
        }
    }
}

/// Number of empty cells of the grid.
pub open spec fn empty_count(g: Grid) -> nat {
    empty_upto(g, 81)
}

/// A grid's model has nine rows of nine cells, and reads as the array does.
pub proof fn lemma_grid_view(a: [[i32; 9]; 9])
    ensures
        is_grid(grid_view(a)),
        forall|r: int, c: int| in_grid(r, c) ==> #[trigger] grid_view(a)[r][c] == a[r][c],
{
}

/// Two grids with the same cells are the same grid.
pub proof fn lemma_grid_ext(g: Grid, h: Grid)
    requires
        is_grid(g),
        is_grid(h),
        forall|r: int, c: int| in_grid(r, c) ==> #[trigger] g[r][c] == h[r][c],
    ensures
        g == h,
{
    assert forall|r: int| 0 <= r < 9 implies #[trigger] g[r] == h[r] by {
        assert forall|c: int| 0 <= c < 9 implies g[r][c] == h[r][c] by {
            assert(in_grid(r, c));
        }
        assert(g[r] =~= h[r]);
    }
    assert(g =~= h);
}

/// Setting a cell changes that cell and no other.
pub proof fn lemma_with_cell(g: Grid, r: int, c: int, v: int)
    requires
        is_grid(g),
        in_grid(r, c),
    ensures
        is_grid(with_cell(g, r, c, v)),
        with_cell(g, r, c, v)[r][c] == v,
        forall|r2: int, c2: int|
            in_grid(r2, c2) && !(r2 == r && c2 == c) ==> #[trigger] with_cell(g, r, c, v)[r2][c2]
                == g[r2][c2],
{
}

/// There are never more empty cells than cells counted.
pub proof fn lemma_empty_upto_bound(g: Grid, k: nat)
    ensures
        empty_upto(g, k) <= k,
    decreases k,
{
    if k > 0 {
        lemma_empty_upto_bound(g, (k - 1) as nat);
    }
}

/// A grid that keeps the placed cells of `g` has no more empty cells than `g`,
/// and fewer once it fills an empty cell of `g` among those counted.
pub proof fn lemma_empty_upto_keeps(g: Grid, h: Grid, k: nat, r0: int, c0: int)
    requires
        k <= 81,
        keeps_placed(g, h),
    ensures
        empty_upto(h, k) <= empty_upto(g, k),
        in_grid(r0, c0) && g[r0][c0] == 0 && h[r0][c0] != 0 && r0 * 9 + c0 < k ==> empty_upto(h, k)
            < empty_upto(g, k),
    decreases k,
{
    if k > 0 {
        let i = (k - 1) as int;
        lemma_empty_upto_keeps(g, h, (k - 1) as nat, r0, c0);
        assert(in_grid(i / 9, i % 9));
        if g[i / 9][i % 9] != 0 {
            assert(h[i / 9][i % 9] == g[i / 9][i % 9]);
        }
        if in_grid(r0, c0) && r0 * 9 + c0 == i {
            assert(i / 9 == r0 && i % 9 == c0);
        }
    }
}

/// Filling cells never raises the number of empty cells.
pub proof fn lemma_filling_never_adds_empties(g: Grid, h: Grid)
    requires
        keeps_placed(g, h),
    ensures
        empty_count(h) <= empty_count(g) <= 81,
{
    lemma_empty_upto_keeps(g, h, 81, 0, 0);
    lemma_empty_upto_bound(g, 81);
}

/// Filling an empty cell lowers the number of empty cells.
pub proof fn lemma_filling_removes_an_empty(g: Grid, h: Grid, r: int, c: int)
    requires
        keeps_placed(g, h),
        in_grid(r, c),
        g[r][c] == 0,
        h[r][c] != 0,
    ensures
        empty_count(h) < empty_count(g),
{
    lemma_empty_upto_keeps(g, h, 81, r, c);
}

} // verus!
