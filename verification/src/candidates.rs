//! The candidate engine: which digits the row, column and box of a cell still
//! leave open for it.

use vstd::prelude::*;
use crate::board::{
    all_ascending, candidates_view, empty_lists, is_candidates, lemma_candidates_ext,
    lemma_candidates_view, Candidates, SudokuBoard,
};
use crate::digits::{ascending, insert_ascending, list_contains};
use crate::grid::{box_start, grid_view, in_grid, populated_grid, same_box, Grid};

verus! {

/// The `k`-th cell, in row-major order, of the box that holds `(r, c)`.
pub open spec fn box_cell(g: Grid, r: int, c: int, k: int) -> int {
    g[box_start(r) + k / 3][box_start(c) + k % 3]
}

/// `d` stands in one of the first `n` cells of row `r`.
pub open spec fn row_holds(g: Grid, r: int, n: int, d: int) -> bool {
    exists|k: int| 0 <= k < n && #[trigger] g[r][k] == d
}

/// `d` stands in one of the first `n` cells of column `c`.
pub open spec fn col_holds(g: Grid, c: int, n: int, d: int) -> bool {
    exists|k: int| 0 <= k < n && #[trigger] g[k][c] == d
}

/// `d` stands in one of the first `n` cells of the box that holds `(r, c)`.
pub open spec fn box_holds(g: Grid, r: int, c: int, n: int, d: int) -> bool {
    exists|k: int| 0 <= k < n && #[trigger] box_cell(g, r, c, k) == d
}

/// `d` stands in the row, the column or the box of cell `(r, c)`.
pub open spec fn seen_by(g: Grid, r: int, c: int, d: int) -> bool {
    row_holds(g, r, 9, d) || col_holds(g, c, 9, d) || box_holds(g, r, c, 9, d)
}

/// `(r2, c2)` shares the row, the column or the box of `(r, c)`.
pub open spec fn is_peer(r: int, c: int, r2: int, c2: int) -> bool {
    in_grid(r2, c2) && (r2 == r || c2 == c || same_box(r, c, r2, c2))
}

/// `d` is a candidate of cell `(r, c)`: the cell is empty, and `d` is a digit
/// that stands nowhere in its row, column or box.
pub open spec fn candidate(g: Grid, r: int, c: int, d: int) -> bool {
    g[r][c] == 0 && 1 <= d <= 9 && !seen_by(g, r, c, d)
}

/// The candidate sets of all cells of `g`.
pub open spec fn candidates_of_grid(g: Grid) -> Candidates {
    Seq::new(9, |r: int| Seq::new(9, |c: int| Set::new(|d: int| candidate(g, r, c, d))))
}

/// The candidate table of a grid has nine rows of nine sets, and each set
/// holds the candidates of its cell.
pub proof fn lemma_candidates_of_grid(g: Grid)
    ensures
        is_candidates(candidates_of_grid(g)),
        forall|r: int, c: int, d: int|
            in_grid(r, c) ==> (#[trigger] candidates_of_grid(g)[r][c].contains(d) <==> candidate(
                g,
                r,
                c,
                d,
            )),
{
}

/// A digit is seen by a cell exactly when one of the cell's peers holds it.
pub proof fn lemma_seen_by_peers(g: Grid, r: int, c: int, d: int)
    requires
        in_grid(r, c),
    ensures
        seen_by(g, r, c, d) <==> exists|r2: int, c2: int|
            is_peer(r, c, r2, c2) && #[trigger] g[r2][c2] == d,
{
    if row_holds(g, r, 9, d) {
        let k = choose|k: int| 0 <= k < 9 && #[trigger] g[r][k] == d;
        assert(is_peer(r, c, r, k) && g[r][k] == d);
    }
    if col_holds(g, c, 9, d) {
        let k = choose|k: int| 0 <= k < 9 && #[trigger] g[k][c] == d;
        assert(is_peer(r, c, k, c) && g[k][c] == d);
    }
    if box_holds(g, r, c, 9, d) {
        let k = choose|k: int| 0 <= k < 9 && #[trigger] box_cell(g, r, c, k) == d;
        let r2 = box_start(r) + k / 3;
        let c2 = box_start(c) + k % 3;
        assert(is_peer(r, c, r2, c2) && g[r2][c2] == d);
    }
    if exists|r2: int, c2: int| is_peer(r, c, r2, c2) && #[trigger] g[r2][c2] == d {
        let (r2, c2) = choose|r2: int, c2: int| is_peer(r, c, r2, c2) && #[trigger] g[r2][c2] == d;
        if r2 == r {
            assert(g[r][c2] == d);
        } else if c2 == c {
            assert(g[r2][c] == d);
        } else {
            let k = (r2 - box_start(r)) * 3 + (c2 - box_start(c));
            assert(0 <= k < 9);
            assert(k / 3 == r2 - box_start(r) && k % 3 == c2 - box_start(c));
            assert(box_cell(g, r, c, k) == d);
        }
    }
}

/// On a grid without empty cells every candidate set is empty.
pub proof fn lemma_populated_grid_has_no_candidates(g: Grid)
    requires
        populated_grid(g),
    ensures
        forall|r: int, c: int|
            in_grid(r, c) ==> #[trigger] candidates_of_grid(g)[r][c] == Set::<int>::empty(),
{
    assert forall|r: int, c: int| in_grid(r, c) implies #[trigger] candidates_of_grid(g)[r][c]
        == Set::<int>::empty() by {
        assert(g[r][c] != 0);
        assert(candidates_of_grid(g)[r][c] =~= Set::<int>::empty());
    }
}

/// No candidate of a cell stands in a peer of that cell.
pub proof fn lemma_candidates_avoid_peers(g: Grid, r: int, c: int, d: int, r2: int, c2: int)
    requires
        in_grid(r, c),
        candidates_of_grid(g)[r][c].contains(d),
        is_peer(r, c, r2, c2),
    ensures
        g[r][c] == 0,
        1 <= d <= 9,
        g[r2][c2] != d,
{
    lemma_seen_by_peers(g, r, c, d);
}

impl SudokuBoard {
    /// The candidate lists fit the grid: every list is ascending and holds
    /// only candidates of its cell, so a placed cell has an empty list and no
    /// list holds a digit that stands in a peer of its cell.
    pub open spec fn consistent(&self) -> bool {
        &&& all_ascending(self.possible_solutions)
        &&& forall|r: int, c: int, d: i32|
            in_grid(r, c) && #[trigger] self.possible_solutions[r][c]@.contains(d) ==> candidate(
                self.grid(),
                r,
                c,
                d as int,
            )
    }

    /// The placed digits in the row, the column and the box of cell
    /// `(row, col)`, in ascending order and each once.
    pub fn get_existing_values(puzzle: &[[i32; 9]; 9], row: usize, col: usize) -> (values: Vec<i32>)
        requires
            row < 9,
            col < 9,
        ensures
            ascending(values@),
            forall|v: i32|
                values@.contains(v) <==> v >= 1 && seen_by(
                    grid_view(*puzzle),
                    row as int,
                    col as int,
                    v as int,
                ),
    {
        let ghost g = grid_view(*puzzle);
        let mut values: Vec<i32> = Vec::new();
        let mut i: usize = 0;
        while i < 9
            invariant
                i <= 9,
                row < 9,
                col < 9,
                g == grid_view(*puzzle),
                ascending(values@),
                forall|v: i32|
                    values@.contains(v) <==> v >= 1 && (row_holds(g, row as int, i as int, v as int)
                        || col_holds(g, col as int, i as int, v as int)),
            decreases 9 - i,
        {
            let row_val = puzzle[row][i];
            let col_val = puzzle[i][col];
            let ghost before = values@;
            if row_val >= 1 {
                insert_ascending(&mut values, row_val);
            }
            let ghost between = values@;
            if col_val >= 1 {
                insert_ascending(&mut values, col_val);
            }
            proof {
                assert(g[row as int][i as int] == row_val);
                assert(g[i as int][col as int] == col_val);
                assert forall|v: i32|
                    values@.contains(v) <==> v >= 1 && (row_holds(
                        g,
                        row as int,
                        i + 1,
                        v as int,
                    ) || col_holds(g, col as int, i + 1, v as int)) by {
                    let d = v as int;
                    if row_holds(g, row as int, i + 1, d) {
                        let k = choose|k: int| 0 <= k < i + 1 && #[trigger] g[row as int][k] == d;
                        if k < i {
                            assert(row_holds(g, row as int, i as int, d));
                        }
                    }
                    if col_holds(g, col as int, i + 1, d) {
                        let k = choose|k: int| 0 <= k < i + 1 && #[trigger] g[k][col as int] == d;
                        if k < i {
                            assert(col_holds(g, col as int, i as int, d));
                        }
                    }
                    if row_holds(g, row as int, i as int, d) {
                        let k = choose|k: int| 0 <= k < i && #[trigger] g[row as int][k] == d;
                        assert(0 <= k < i + 1 && g[row as int][k] == d);
                    }
                    if col_holds(g, col as int, i as int, d) {
                        let k = choose|k: int| 0 <= k < i && #[trigger] g[k][col as int] == d;
                        assert(0 <= k < i + 1 && g[k][col as int] == d);
                    }
                    assert(between.contains(v) <==> before.contains(v) || (row_val >= 1 && v
                        == row_val));
                    assert(values@.contains(v) <==> between.contains(v) || (col_val >= 1 && v
                        == col_val));
                }
            }
            i += 1;
        }
        let xy_boundary = SudokuBoard::get_boundaries_for_cell(row, col);
        let mut k: usize = 0;
        while k < 9
            invariant
                k <= 9,
                row < 9,
                col < 9,
                g == grid_view(*puzzle),
                xy_boundary.0 == box_start(row as int),
                xy_boundary.1 == box_start(col as int),
                ascending(values@),
                forall|v: i32|
                    values@.contains(v) <==> v >= 1 && (row_holds(g, row as int, 9, v as int)
                        || col_holds(g, col as int, 9, v as int) || box_holds(
                        g,
                        row as int,
                        col as int,
                        k as int,
                        v as int,
                    )),
            decreases 9 - k,
        {
            let box_val = puzzle[k / 3 + xy_boundary.0][k % 3 + xy_boundary.1];
            let ghost before = values@;
            if box_val >= 1 {
                insert_ascending(&mut values, box_val);
            }
            proof {
                assert(box_cell(g, row as int, col as int, k as int) == box_val);
                assert forall|v: i32|
                    values@.contains(v) <==> v >= 1 && (row_holds(g, row as int, 9, v as int)
                        || col_holds(g, col as int, 9, v as int) || box_holds(
                        g,
                        row as int,
                        col as int,
                        k + 1,
                        v as int,
                    )) by {
                    let d = v as int;
                    if box_holds(g, row as int, col as int, k + 1, d) {
                        let j = choose|j: int|
                            0 <= j < k + 1 && #[trigger] box_cell(g, row as int, col as int, j)
                                == d;
                        if j < k {
                            assert(box_holds(g, row as int, col as int, k as int, d));
                        }
                    }
                    if box_holds(g, row as int, col as int, k as int, d) {
                        let j = choose|j: int|
                            0 <= j < k && #[trigger] box_cell(g, row as int, col as int, j) == d;
                        assert(0 <= j < k + 1 && box_cell(g, row as int, col as int, j) == d);
                    }
                    assert(values@.contains(v) <==> before.contains(v) || (box_val >= 1 && v
                        == box_val));
                }
            }
            k += 1;
        }
        values
    }

    /// The digits 1..=9 that `values` does not hold, in ascending order.
    pub fn get_inverse_values(values: Vec<i32>) -> (rest: Vec<i32>)
        ensures
            ascending(rest@),
            forall|d: i32| rest@.contains(d) <==> 1 <= d <= 9 && !values@.contains(d),
    {
        let mut ret_values: Vec<i32> = Vec::new();
        let mut i: i32 = 1;
        while i < 10
            invariant
                1 <= i <= 10,
                ascending(ret_values@),
                forall|d: i32| ret_values@.contains(d) <==> 1 <= d < i && !values@.contains(d),
            decreases 10 - i,
        {
            if !list_contains(&values, i) {
                let ghost before = ret_values@;
                ret_values.push(i);
                proof {
                    assert(ret_values@ == before.push(i));
                    assert forall|d: i32|
                        ret_values@.contains(d) <==> 1 <= d < i + 1 && !values@.contains(d) by {
                        if before.contains(d) {
                            let k = choose|k: int| 0 <= k < before.len() && before[k] == d;
                            assert(ret_values@[k] == d);
                        }
                        if d == i {
                            assert(ret_values@[before.len() as int] == d);
                        }
                    }
                    assert forall|a: int, b: int|
                        0 <= a < b < ret_values@.len() implies ret_values@[a] < ret_values@[b] by {
                        if b == before.len() {
                            assert(before.contains(before[a]));
                        }
                    }
                }
            }
            i += 1;
        }
        ret_values
    }

    /// The candidate list of every cell of the board's grid: for an empty cell
    /// the digits that its row, column and box leave open, for a placed cell
    /// the empty list.
    pub fn calc_possible_solutions(board: &SudokuBoard) -> (lists: [[Vec<i32>; 9]; 9])
        ensures
            all_ascending(lists),
            candidates_view(lists) == candidates_of_grid(board.grid()),
    {
        let ghost g = board.grid();
        let mut ret_value: [[Vec<i32>; 9]; 9] = empty_lists();
        let mut i: usize = 0;
        while i < 9
            invariant
                i <= 9,
                g == grid_view(board.puzzle),
                forall|r: int, c: int| in_grid(r, c) ==> ascending(#[trigger] ret_value[r][c]@),
                forall|r: int, c: int, d: i32|
                    0 <= r < i && 0 <= c < 9 ==> (#[trigger] ret_value[r][c]@.contains(d)
                        <==> candidate(g, r, c, d as int)),
            decreases 9 - i,
        {
            let mut j: usize = 0;
            while j < 9
                invariant
                    i < 9,
                    j <= 9,
                    g == grid_view(board.puzzle),
                    forall|r: int, c: int| in_grid(r, c) ==> ascending(#[trigger] ret_value[r][c]@),
                    forall|r: int, c: int, d: i32|
                        0 <= r < i && 0 <= c < 9 ==> (#[trigger] ret_value[r][c]@.contains(d)
                            <==> candidate(g, r, c, d as int)),
                    forall|c: int, d: i32|
                        0 <= c < j ==> (#[trigger] ret_value[i as int][c]@.contains(d)
                            <==> candidate(g, i as int, c, d as int)),
                decreases 9 - j,
            {
                let ghost before = ret_value;
                if board.puzzle[i][j] == 0 {
                    let list = SudokuBoard::get_inverse_values(
                        SudokuBoard::get_existing_values(&board.puzzle, i, j),
                    );
                    ret_value[i][j] = list;
                } else {
                    ret_value[i][j] = Vec::new();
                }
                proof {
                    assert(g[i as int][j as int] == board.puzzle[i as int][j as int]);
                    assert forall|r: int, c: int| in_grid(r, c) && !(r == i && c == j) implies (
                    #[trigger] ret_value[r][c]) == before[r][c] by {}
                    assert forall|d: i32|
                        ret_value[i as int][j as int]@.contains(d) <==> candidate(
                            g,
                            i as int,
                            j as int,
                            d as int,
                        ) by {}
                }
                j += 1;
            }
            i += 1;
        }
        proof {
            lemma_candidates_view(ret_value);
            lemma_candidates_of_grid(g);
            assert forall|r: int, c: int, d: int| in_grid(r, c) implies (#[trigger] candidates_view(
                ret_value,
            )[r][c].contains(d) <==> candidates_of_grid(g)[r][c].contains(d)) by {
                if i32::MIN <= d <= i32::MAX {
                    assert(ret_value[r][c]@.contains(d as i32) <==> candidate(g, r, c, d));
                }
            }
            lemma_candidates_ext(candidates_view(ret_value), candidates_of_grid(g));
        }
        ret_value
    }

    /// The board of a puzzle: its grid and the candidates of every cell.
    pub fn from_puzzle(puzzle: [[i32; 9]; 9]) -> (board: SudokuBoard)
        ensures
            board.puzzle == puzzle,
            all_ascending(board.possible_solutions),
            board.candidates() == candidates_of_grid(grid_view(puzzle)),
            board.consistent(),
            !board.needs_solving,
    {
        let mut new_board = SudokuBoard::new();
        new_board.puzzle = puzzle;
        new_board.possible_solutions = SudokuBoard::calc_possible_solutions(&new_board);
        proof {
            lemma_candidates_view(new_board.possible_solutions);
            lemma_candidates_of_grid(new_board.grid());
            assert forall|r: int, c: int, d: i32|
                in_grid(r, c) && #[trigger] new_board.possible_solutions[r][c]@.contains(
                    d,
                ) implies candidate(new_board.grid(), r, c, d as int) by {
                assert(new_board.candidates()[r][c].contains(d as int));
            }
        }
        new_board
    }
}

} // verus!
