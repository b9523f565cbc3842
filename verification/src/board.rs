//! The board: the grid, the candidate list of every cell, and the accessors
//! that read a box of it line by line.

use vstd::prelude::*;
use crate::digits::{ascending, digit_set};
use crate::grid::{box_start, digits_only, grid_view, in_grid, lemma_grid_view, Grid};

verus! {

/// One of the three rows inside a box.
pub enum RowGroup {
    RowTop,
    RowMiddle,
    RowBottom,
}

/// One of the three columns inside a box.
pub enum ColGroup {
    ColLeft,
    ColMiddle,
    ColRight,
}

impl RowGroup {
    /// Distance of the row from the top of its box.
    pub open spec fn offset(self) -> int {
        match self {
            RowGroup::RowTop => 0,
            RowGroup::RowMiddle => 1,
            RowGroup::RowBottom => 2,
        }
    }
}

impl ColGroup {
    /// Distance of the column from the left edge of its box.
    pub open spec fn offset(self) -> int {
        match self {
            ColGroup::ColLeft => 0,
            ColGroup::ColMiddle => 1,
            ColGroup::ColRight => 2,
        }
    }
}

/// The candidate sets of all cells: nine rows of nine sets of digits.
pub type Candidates = Seq<Seq<Set<int>>>;

/// The model of the executable candidate lists: the set of each list.
pub open spec fn candidates_view(a: [[Vec<i32>; 9]; 9]) -> Candidates {
    Seq::new(9, |r: int| Seq::new(9, |c: int| digit_set(a[r][c]@)))
}

/// Every candidate list is strictly ascending.
pub open spec fn all_ascending(a: [[Vec<i32>; 9]; 9]) -> bool {
    forall|r: int, c: int| in_grid(r, c) ==> ascending(#[trigger] a[r][c]@)
}

/// Both tables hold the same lists.
pub open spec fn same_lists(a: [[Vec<i32>; 9]; 9], b: [[Vec<i32>; 9]; 9]) -> bool {
    forall|r: int, c: int| in_grid(r, c) ==> #[trigger] a[r][c]@ == b[r][c]@
}

/// `cs` has nine rows of nine sets.
pub open spec fn is_candidates(cs: Candidates) -> bool {
    &&& cs.len() == 9
    &&& forall|r: int| 0 <= r < 9 ==> (#[trigger] cs[r]).len() == 9
}

/// The model of the candidate lists has nine rows of nine sets, and each set
/// holds what its list holds.
pub proof fn lemma_candidates_view(a: [[Vec<i32>; 9]; 9])
    ensures
        is_candidates(candidates_view(a)),
        forall|r: int, c: int|
            in_grid(r, c) ==> #[trigger] candidates_view(a)[r][c] == digit_set(a[r][c]@),
        forall|r: int, c: int, d: i32|
            in_grid(r, c) ==> (#[trigger] candidates_view(a)[r][c].contains(d as int)
                <==> a[r][c]@.contains(d)),
{
}

/// Two candidate tables with the same sets are the same table.
pub proof fn lemma_candidates_ext(x: Candidates, y: Candidates)
    requires
        is_candidates(x),
        is_candidates(y),
        forall|r: int, c: int, d: int|
            in_grid(r, c) ==> (#[trigger] x[r][c].contains(d) <==> y[r][c].contains(d)),
    ensures
        x == y,
{
    assert forall|r: int| 0 <= r < 9 implies #[trigger] x[r] == y[r] by {
        assert forall|c: int| 0 <= c < 9 implies x[r][c] == y[r][c] by {
            assert(in_grid(r, c));
            assert forall|d: int| x[r][c].contains(d) <==> y[r][c].contains(d) by {}
            assert(x[r][c] =~= y[r][c]);
        }
        assert(x[r] =~= y[r]);
    }
    assert(x =~= y);
}

/// A sudoku board: the grid, for each cell the ascending list of digits not
/// yet excluded for it, and the progress flag of the propagation.
pub struct SudokuBoard {
    pub puzzle: [[i32; 9]; 9],
    pub possible_solutions: [[Vec<i32>; 9]; 9],
    pub needs_solving: bool,
}

/// Nine empty candidate lists.
fn empty_row() -> (row: [Vec<i32>; 9])
    ensures
        forall|c: int| 0 <= c < 9 ==> (#[trigger] row[c])@ == Seq::<i32>::empty(),
{
    [
        Vec::new(),
        Vec::new(),
        Vec::new(),
        Vec::new(),
        Vec::new(),
        Vec::new(),
        Vec::new(),
        Vec::new(),
        Vec::new(),
    ]
}

/// A table of empty candidate lists.
pub fn empty_lists() -> (lists: [[Vec<i32>; 9]; 9])
    ensures
        forall|r: int, c: int| in_grid(r, c) ==> (#[trigger] lists[r][c])@ == Seq::<i32>::empty(),
{
    [
        empty_row(),
        empty_row(),
        empty_row(),
        empty_row(),
        empty_row(),
        empty_row(),
        empty_row(),
        empty_row(),
        empty_row(),
    ]
}

impl SudokuBoard {
    /// The model of the board's grid.
    pub open spec fn grid(&self) -> Grid {
        grid_view(self.puzzle)
    }

    /// The model of the board's candidate lists.
    pub open spec fn candidates(&self) -> Candidates {
        candidates_view(self.possible_solutions)
    }

    /// An empty board: no digit placed, no candidate listed.
    pub fn new() -> (board: SudokuBoard)
        ensures
            forall|r: int, c: int| in_grid(r, c) ==> #[trigger] board.puzzle[r][c] == 0,
            forall|r: int, c: int|
                in_grid(r, c) ==> (#[trigger] board.possible_solutions[r][c])@ == Seq::<
                    i32,
                >::empty(),
            !board.needs_solving,
    {
        SudokuBoard {
            puzzle: [[0i32; 9]; 9],
            possible_solutions: empty_lists(),
            needs_solving: false,
        }
    }

    /// Whether every cell of the puzzle is empty or holds a digit 1..=9.
    pub fn is_well_formed(puzzle: &[[i32; 9]; 9]) -> (ok: bool)
        ensures
            ok == digits_only(grid_view(*puzzle)),
    {
        proof {
            lemma_grid_view(*puzzle);
        }
        let mut i: usize = 0;
        while i < 9
            invariant
                i <= 9,
                forall|r: int, c: int| 0 <= r < i && 0 <= c < 9 ==> 0 <= #[trigger] puzzle[r][c] <= 9,
            decreases 9 - i,
        {
            let mut j: usize = 0;
            while j < 9
                invariant
                    i < 9,
                    j <= 9,
                    forall|r: int, c: int|
                        0 <= r < i && 0 <= c < 9 ==> 0 <= #[trigger] puzzle[r][c] <= 9,
                    forall|c: int| 0 <= c < j ==> 0 <= #[trigger] puzzle[i as int][c] <= 9,
                decreases 9 - j,
            {
                if puzzle[i][j] < 0 || puzzle[i][j] > 9 {
                    proof {
                        assert(in_grid(i as int, j as int));
                        assert(grid_view(*puzzle)[i as int][j as int] == puzzle[i as int][j as int]);
                    }
                    return false;
                }
                j += 1;
            }
            i += 1;
        }
        proof {
            assert forall|r: int, c: int| in_grid(r, c) implies 0 <= #[trigger] grid_view(
                *puzzle,
            )[r][c] <= 9 by {
                assert(0 <= puzzle[r][c] <= 9);
            }
        }
        true
    }

    /// The origin of the box that holds cell `(row, col)`.
    pub fn get_boundaries_for_cell(row: usize, col: usize) -> (origin: (usize, usize))
        ensures
            origin.0 == box_start(row as int),
            origin.1 == box_start(col as int),
    {
        let mut row_boundary: usize = 0;
        let mut col_boundary: usize = 0;
        if row >= 3 && row < 6 {
            row_boundary = 3;
        }
        if row >= 6 {
            row_boundary = 6;
        }
        if col >= 3 && col < 6 {
            col_boundary = 3;
        }
        if col >= 6 {
            col_boundary = 6;
        }
        (row_boundary, col_boundary)
    }

    /// The three grid cells of one row of the box at `box_coord`.
    pub fn get_puzzle_row(board: &SudokuBoard, box_coord: (i32, i32), row: RowGroup) -> (cells: (
        i32,
        i32,
        i32,
    ))
        requires
            0 <= box_coord.0 < 3,
            0 <= box_coord.1 < 3,
        ensures
            cells.0 == board.puzzle[box_coord.0 * 3 + row.offset()][box_coord.1 * 3],
            cells.1 == board.puzzle[box_coord.0 * 3 + row.offset()][box_coord.1 * 3 + 1],
            cells.2 == board.puzzle[box_coord.0 * 3 + row.offset()][box_coord.1 * 3 + 2],
    {
        let row_offset: usize = match row {
            RowGroup::RowTop => 0,
            RowGroup::RowMiddle => 1,
            RowGroup::RowBottom => 2,
        };
        let natural_boundaries = SudokuBoard::get_boundaries_for_cell(
            (box_coord.0 * 3) as usize,
            (box_coord.1 * 3) as usize,
        );
        let x: usize = natural_boundaries.0 + row_offset;
        (
            board.puzzle[x][natural_boundaries.1],
            board.puzzle[x][natural_boundaries.1 + 1],
            board.puzzle[x][natural_boundaries.1 + 2],
        )
    }

    /// The candidate lists of the three cells of one row of the box at `box_coord`.
    pub fn get_solution_row(&self, box_coord: (i32, i32), row: RowGroup) -> (lists: Vec<&Vec<i32>>)
        requires
            0 <= box_coord.0 < 3,
            0 <= box_coord.1 < 3,
        ensures
            lists@.len() == 3,
            forall|k: int|
                0 <= k < 3 ==> *(#[trigger] lists@[k]) == self.possible_solutions[box_coord.0 * 3
                    + row.offset()][box_coord.1 * 3 + k],
    {
        let row_offset: usize = match row {
            RowGroup::RowTop => 0,
            RowGroup::RowMiddle => 1,
            RowGroup::RowBottom => 2,
        };
        let natural_boundaries = SudokuBoard::get_boundaries_for_cell(
            (box_coord.0 * 3) as usize,
            (box_coord.1 * 3) as usize,
        );
        let x: usize = natural_boundaries.0 + row_offset;
        let mut ret_vec: Vec<&Vec<i32>> = Vec::new();
        ret_vec.push(&self.possible_solutions[x][natural_boundaries.1]);
        ret_vec.push(&self.possible_solutions[x][natural_boundaries.1 + 1]);
        ret_vec.push(&self.possible_solutions[x][natural_boundaries.1 + 2]);
        ret_vec
    }

    /// The candidate lists of the three cells of one column of the box at `box_coord`.
    pub fn get_solution_col(&self, box_coord: (i32, i32), col: ColGroup) -> (lists: Vec<&Vec<i32>>)
        requires
            0 <= box_coord.0 < 3,
            0 <= box_coord.1 < 3,
        ensures
            lists@.len() == 3,
            forall|k: int|
                0 <= k < 3 ==> *(#[trigger] lists@[k]) == self.possible_solutions[box_coord.0 * 3
                    + k][box_coord.1 * 3 + col.offset()],
    {
        let col_offset: usize = match col {
            ColGroup::ColLeft => 0,
            ColGroup::ColMiddle => 1,
            ColGroup::ColRight => 2,
        };
        let natural_boundaries = SudokuBoard::get_boundaries_for_cell(
            (box_coord.0 * 3) as usize,
            (box_coord.1 * 3) as usize,
        );
        let y: usize = natural_boundaries.1 + col_offset;
        let mut ret_vec: Vec<&Vec<i32>> = Vec::new();
        ret_vec.push(&self.possible_solutions[natural_boundaries.0][y]);
        ret_vec.push(&self.possible_solutions[natural_boundaries.0 + 1][y]);
        ret_vec.push(&self.possible_solutions[natural_boundaries.0 + 2][y]);
        ret_vec
    }

    /// The candidate list of cell `(row, col)`.
    pub fn candidates_of(&self, row: usize, col: usize) -> (list: &Vec<i32>)
        requires
            row < 9,
            col < 9,
        ensures
            *list == self.possible_solutions[row as int][col as int],
    {
        &self.possible_solutions[row][col]
    }
}

impl Clone for SudokuBoard {
    /// An independent copy: the same grid, the same candidate lists in
    /// storage of its own, the same flag.
    fn clone(&self) -> (copy: SudokuBoard)
        ensures
            copy.puzzle == self.puzzle,
            same_lists(copy.possible_solutions, self.possible_solutions),
            copy.needs_solving == self.needs_solving,
    {
        let mut lists: [[Vec<i32>; 9]; 9] = empty_lists();
        let mut i: usize = 0;
        while i < 9
            invariant
                i <= 9,
                forall|r: int, c: int|
                    0 <= r < i && 0 <= c < 9 ==> (#[trigger] lists[r][c])@
                        == self.possible_solutions[r][c]@,
            decreases 9 - i,
        {
            let mut j: usize = 0;
            while j < 9
                invariant
                    i < 9,
                    j <= 9,
                    forall|r: int, c: int|
                        0 <= r < i && 0 <= c < 9 ==> (#[trigger] lists[r][c])@
                            == self.possible_solutions[r][c]@,
                    forall|c: int|
                        0 <= c < j ==> (#[trigger] lists[i as int][c])@
                            == self.possible_solutions[i as int][c]@,
                decreases 9 - j,
            {
                let ghost before = lists;
                let list = self.possible_solutions[i][j].clone();
                assert(list@ =~= self.possible_solutions[i as int][j as int]@);
                lists[i][j] = list;
                assert forall|r: int, c: int| in_grid(r, c) && !(r == i && c == j) implies (
                #[trigger] lists[r][c]) == before[r][c] by {}
                j += 1;
            }
            i += 1;
        }
        SudokuBoard {
            puzzle: self.puzzle,
            possible_solutions: lists,
            needs_solving: self.needs_solving,
        }
    }
}

impl Default for SudokuBoard {
    fn default() -> (board: SudokuBoard)
        ensures
            forall|r: int, c: int| in_grid(r, c) ==> #[trigger] board.puzzle[r][c] == 0,
            forall|r: int, c: int|
                in_grid(r, c) ==> (#[trigger] board.possible_solutions[r][c])@ == Seq::<
                    i32,
                >::empty(),
            !board.needs_solving,
    {
        SudokuBoard::new()
    }
}

} // verus!
