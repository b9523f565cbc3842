//! The validator of a completed grid: no digit twice in a row, a column or a box.

use vstd::prelude::*;
use crate::board::{RowGroup, SudokuBoard};
use crate::grid::{all_digits, grid_view, in_grid, lemma_grid_view, populated_grid, Grid};

verus! {

/// The cells of row `r`, left to right.
pub open spec fn row_values(g: Grid, r: int) -> Seq<int> {
    Seq::new(9, |c: int| g[r][c])
}

/// The cells of column `c`, top to bottom.
pub open spec fn col_values(g: Grid, c: int) -> Seq<int> {
    Seq::new(9, |r: int| g[r][c])
}

/// The cells of the box in band `x` and stack `y`, in row-major order.
pub open spec fn box_values(g: Grid, x: int, y: int) -> Seq<int> {
    Seq::new(9, |k: int| g[3 * x + k / 3][3 * y + k % 3])
}

/// No row holds a value twice.
pub open spec fn rows_valid(g: Grid) -> bool {
    forall|r: int| 0 <= r < 9 ==> (#[trigger] row_values(g, r)).no_duplicates()
}

/// No column holds a value twice.
pub open spec fn cols_valid(g: Grid) -> bool {
    forall|c: int| 0 <= c < 9 ==> (#[trigger] col_values(g, c)).no_duplicates()
}

/// No box holds a value twice.
pub open spec fn boxes_valid(g: Grid) -> bool {
    forall|x: int, y: int|
        0 <= x < 3 && 0 <= y < 3 ==> (#[trigger] box_values(g, x, y)).no_duplicates()
}

/// The grid obeys the uniqueness rule in every row, column and box.
pub open spec fn valid_grid(g: Grid) -> bool {
    rows_valid(g) && cols_valid(g) && boxes_valid(g)
}

/// Whether nine digits are pairwise distinct, by a marker per digit that
/// must never be set twice.
fn all_distinct(values: &Vec<i32>) -> (ok: bool)
    requires
        values@.len() == 9,
        forall|k: int| 0 <= k < 9 ==> 1 <= #[trigger] values@[k] <= 9,
    ensures
        ok == values@.no_duplicates(),
{
    let mut seen: [bool; 9] = [false; 9];
    let mut j: usize = 0;
    while j < 9
        invariant
            j <= 9,
            values@.len() == 9,
            forall|k: int| 0 <= k < 9 ==> 1 <= #[trigger] values@[k] <= 9,
            forall|d: int|
                0 <= d < 9 ==> (#[trigger] seen[d] <==> exists|k: int|
                    0 <= k < j && #[trigger] values@[k] == d + 1),
            forall|a: int, b: int| 0 <= a < j && 0 <= b < j && a != b ==> values@[a] != values@[b],
        decreases 9 - j,
    {
        let indexer: usize = (values[j] - 1) as usize;
        if !seen[indexer] {
            let ghost before = seen;
            seen[indexer] = true;
            proof {
                assert forall|d: int| 0 <= d < 9 implies (#[trigger] seen[d] <==> exists|k: int|
                    0 <= k < j + 1 && #[trigger] values@[k] == d + 1) by {
                    if d == indexer {
                        assert(values@[j as int] == d + 1);
                    } else {
                        assert(seen[d] == before[d]);
                        if before[d] {
                            let k = choose|k: int| 0 <= k < j && #[trigger] values@[k] == d + 1;
                            assert(0 <= k < j + 1 && values@[k] == d + 1);
                        }
                    }
                }
                assert forall|a: int, b: int|
                    0 <= a < j + 1 && 0 <= b < j + 1 && a != b implies values@[a] != values@[b] by {
                    if a == j && values@[b] == values@[a] {
                        assert(0 <= b < j && values@[b] == indexer + 1);
                    }
                    if b == j && values@[a] == values@[b] {
                        assert(0 <= a < j && values@[a] == indexer + 1);
                    }
                }
            }
        } else {
            proof {
                let k = choose|k: int| 0 <= k < j && #[trigger] values@[k] == indexer + 1;
                assert(values@[k] == values@[j as int] && k != j);
            }
            return false;
        }
        j += 1;
    }
    true
}

impl SudokuBoard {
    /// Whether no cell of the grid is empty.
    pub fn populated(s_board: &SudokuBoard) -> (full: bool)
        ensures
            full == populated_grid(s_board.grid()),
    {
        proof {
            lemma_grid_view(s_board.puzzle);
        }
        let mut i: usize = 0;
        while i < 9
            invariant
                i <= 9,
                forall|r: int, c: int| 0 <= r < i && 0 <= c < 9 ==> #[trigger] s_board.puzzle[r][c] != 0,
            decreases 9 - i,
        {
            let mut j: usize = 0;
            while j < 9
                invariant
                    i < 9,
                    j <= 9,
                    forall|r: int, c: int|
                        0 <= r < i && 0 <= c < 9 ==> #[trigger] s_board.puzzle[r][c] != 0,
                    forall|c: int| 0 <= c < j ==> #[trigger] s_board.puzzle[i as int][c] != 0,
                decreases 9 - j,
            {
                if s_board.puzzle[i][j] == 0 {
                    proof {
                        assert(in_grid(i as int, j as int));
                        assert(s_board.grid()[i as int][j as int] == 0);
                    }
                    return false;
                }
                j += 1;
            }
            i += 1;
        }
        proof {
            assert forall|r: int, c: int| in_grid(r, c) implies #[trigger] s_board.grid()[r][c]
                != 0 by {
                assert(s_board.puzzle[r][c] != 0);
            }
        }
        true
    }

    /// Whether a completed grid obeys the uniqueness rule in every row,
    /// column and box.
    pub fn validate_board(board: &SudokuBoard) -> (valid: bool)
        requires
            all_digits(board.grid()),
        ensures
            valid == valid_grid(board.grid()),
    {
        SudokuBoard::validate_rows(board) && SudokuBoard::validate_columns(board)
            && SudokuBoard::validate_boxes(board)
    }

    /// Whether no row of a completed grid holds a digit twice.
    pub fn validate_rows(board: &SudokuBoard) -> (valid: bool)
        requires
            all_digits(board.grid()),
        ensures
            valid == rows_valid(board.grid()),
    {
        let ghost g = board.grid();
        proof {
            lemma_grid_view(board.puzzle);
        }
        let mut i: usize = 0;
        while i < 9
            invariant
                i <= 9,
                g == grid_view(board.puzzle),
                all_digits(g),
                forall|r: int, c: int| in_grid(r, c) ==> #[trigger] g[r][c] == board.puzzle[r][c],
                forall|r: int| 0 <= r < i ==> (#[trigger] row_values(g, r)).no_duplicates(),
            decreases 9 - i,
        {
            let mut row: Vec<i32> = Vec::new();
            let mut j: usize = 0;
            while j < 9
                invariant
                    i < 9,
                    j <= 9,
                    row@.len() == j,
                    forall|k: int| 0 <= k < j ==> #[trigger] row@[k] == board.puzzle[i as int][k],
                decreases 9 - j,
            {
                row.push(board.puzzle[i][j]);
                j += 1;
            }
            proof {
                assert forall|k: int| 0 <= k < 9 implies 1 <= #[trigger] row@[k] <= 9 by {
                    assert(in_grid(i as int, k));
                    assert(1 <= g[i as int][k] <= 9);
                }
                lemma_same_values(row@, row_values(g, i as int));
            }
            if !all_distinct(&row) {
                return false;
            }
            i += 1;
        }
        true
    }

    /// Whether no column of a completed grid holds a digit twice.
    pub fn validate_columns(board: &SudokuBoard) -> (valid: bool)
        requires
            all_digits(board.grid()),
        ensures
            valid == cols_valid(board.grid()),
    {
        let ghost g = board.grid();
        proof {
            lemma_grid_view(board.puzzle);
        }
        let mut i: usize = 0;
        while i < 9
            invariant
                i <= 9,
                g == grid_view(board.puzzle),
                all_digits(g),
                forall|r: int, c: int| in_grid(r, c) ==> #[trigger] g[r][c] == board.puzzle[r][c],
                forall|c: int| 0 <= c < i ==> (#[trigger] col_values(g, c)).no_duplicates(),
            decreases 9 - i,
        {
            let mut col: Vec<i32> = Vec::new();
            let mut j: usize = 0;
            while j < 9
                invariant
                    i < 9,
                    j <= 9,
                    col@.len() == j,
                    forall|k: int| 0 <= k < j ==> #[trigger] col@[k] == board.puzzle[k][i as int],
                decreases 9 - j,
            {
                col.push(board.puzzle[j][i]);
                j += 1;
            }
            proof {
                assert forall|k: int| 0 <= k < 9 implies 1 <= #[trigger] col@[k] <= 9 by {
                    assert(in_grid(k, i as int));
                    assert(1 <= g[k][i as int] <= 9);
                }
                lemma_same_values(col@, col_values(g, i as int));
            }
            if !all_distinct(&col) {
                return false;
            }
            i += 1;
        }
        true
    }

    /// Whether no box of a completed grid holds a digit twice. The nine
    /// values of a box are read row by row.
    pub fn validate_boxes(board: &SudokuBoard) -> (valid: bool)
        requires
            all_digits(board.grid()),
        ensures
            valid == boxes_valid(board.grid()),
    {
        let ghost g = board.grid();
        proof {
            lemma_grid_view(board.puzzle);
        }
        let mut i: i32 = 0;
        while i < 3
            invariant
                0 <= i <= 3,
                g == grid_view(board.puzzle),
                all_digits(g),
                forall|r: int, c: int| in_grid(r, c) ==> #[trigger] g[r][c] == board.puzzle[r][c],
                forall|x: int, y: int|
                    0 <= x < i && 0 <= y < 3 ==> (#[trigger] box_values(g, x, y)).no_duplicates(),
            decreases 3 - i,
        {
            let mut j: i32 = 0;
            while j < 3
                invariant
                    0 <= i < 3,
                    0 <= j <= 3,
                    g == grid_view(board.puzzle),
                    all_digits(g),
                    forall|r: int, c: int|
                        in_grid(r, c) ==> #[trigger] g[r][c] == board.puzzle[r][c],
                    forall|x: int, y: int|
                        0 <= x < i && 0 <= y < 3 ==> (#[trigger] box_values(
                            g,
                            x,
                            y,
                        )).no_duplicates(),
                    forall|y: int|
                        0 <= y < j ==> (#[trigger] box_values(g, i as int, y)).no_duplicates(),
                decreases 3 - j,
            {
                let mut cube: Vec<i32> = Vec::new();
                let top_row = SudokuBoard::get_puzzle_row(board, (i, j), RowGroup::RowTop);
                let mid_row = SudokuBoard::get_puzzle_row(board, (i, j), RowGroup::RowMiddle);
                let bot_row = SudokuBoard::get_puzzle_row(board, (i, j), RowGroup::RowBottom);
                cube.push(top_row.0);
                cube.push(top_row.1);
                cube.push(top_row.2);
                cube.push(mid_row.0);
                cube.push(mid_row.1);
                cube.push(mid_row.2);
                cube.push(bot_row.0);
                cube.push(bot_row.1);
                cube.push(bot_row.2);
                proof {
                    let bv = box_values(g, i as int, j as int);
                    assert forall|k: int| 0 <= k < 9 implies #[trigger] cube@[k] == bv[k] && 1
                        <= cube@[k] <= 9 by {
                        let r = 3 * i + k / 3;
                        let c = 3 * j + k % 3;
                        assert(in_grid(r, c));
                        assert(1 <= g[r][c] <= 9);
                        assert(bv[k] == g[r][c]);
                    }
                    lemma_same_values(cube@, bv);
                }
                if !all_distinct(&cube) {
                    return false;
                }
                j += 1;
            }
            i += 1;
        }
        true
    }
}

/// A list of machine integers repeats a value exactly when the list of the
/// same values as mathematical integers does.
proof fn lemma_same_values(values: Seq<i32>, model: Seq<int>)
    requires
        values.len() == model.len(),
        forall|k: int| 0 <= k < values.len() ==> #[trigger] values[k] == model[k],
    ensures
        values.no_duplicates() == model.no_duplicates(),
{
    if values.no_duplicates() {
        assert forall|a: int, b: int| 0 <= a < model.len() && 0 <= b < model.len() && a
            != b implies model[a] != model[b] by {
            assert(values[a] != values[b]);
        }
    }
    if model.no_duplicates() {
        assert forall|a: int, b: int| 0 <= a < values.len() && 0 <= b < values.len() && a
            != b implies values[a] != values[b] by {
            assert(model[a] != model[b]);
        }
    }
}

} // verus!
