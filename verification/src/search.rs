//! The speculative search: one guess in the first eligible cell, then
//! propagation on an independent copy of the board.

use vstd::prelude::*;
use crate::board::{same_lists, SudokuBoard};
use crate::digits::list_contains;
use crate::grid::{
    all_digits, digits_only, grid_view, in_grid, lemma_grid_ext, lemma_grid_view, lemma_with_cell,
    populated_grid, precedes, with_cell, Grid,
};
use crate::propagate::solved;
use crate::validate::valid_grid;

verus! {

/// Cell `(r, c)` may take the guess `digit`: it is empty, it lists at most
/// `level` candidates, and `digit` is one of them.
pub open spec fn eligible(board: SudokuBoard, r: int, c: int, digit: i32, level: usize) -> bool {
    &&& board.puzzle[r][c] == 0
    &&& board.possible_solutions[r][c]@.len() <= level
    &&& board.possible_solutions[r][c]@.contains(digit)
}

/// Some cell before `(i, j)` in row-major order may take the guess.
pub open spec fn eligible_before(board: SudokuBoard, i: int, j: int, digit: i32, level: usize) -> bool {
    exists|r: int, c: int|
        in_grid(r, c) && precedes(r, c, i, j) && #[trigger] eligible(board, r, c, digit, level)
}

/// `(r, c)` is the first cell, in row-major order, that may take the guess.
pub open spec fn first_eligible(board: SudokuBoard, r: int, c: int, digit: i32, level: usize) -> bool {
    in_grid(r, c) && eligible(board, r, c, digit, level) && !eligible_before(
        board,
        r,
        c,
        digit,
        level,
    )
}

/// The grid that a guess of `digit` at greed level `level` ends with: the
/// digit goes into the first eligible cell and the grid is propagated; with
/// no eligible cell the grid stays as it is.
pub open spec fn guess_grid(board: SudokuBoard, digit: i32, level: usize) -> Grid {
    if exists|r: int, c: int| first_eligible(board, r, c, digit, level) {
        let (r, c) = choose|r: int, c: int| first_eligible(board, r, c, digit, level);
        solved(with_cell(board.grid(), r, c, digit as int))
    } else {
        board.grid()
    }
}

/// The grid is complete and obeys the uniqueness rule.
pub open spec fn complete_and_valid(g: Grid) -> bool {
    populated_grid(g) && valid_grid(g)
}

/// How an attempt to solve a board ended.
pub enum SolveOutcome {
    /// Propagation alone completed the grid, and it is valid.
    Propagated,
    /// Propagation stalled; the guess of this digit gave this complete and
    /// valid board.
    Guessed(i32, SudokuBoard),
    /// Propagation stalled, and no guess of a digit 1..=9 at the given greed
    /// level gave a complete and valid board.
    Unsolved,
}

/// There is at most one first eligible cell.
pub proof fn lemma_first_eligible_unique(
    board: SudokuBoard,
    r1: int,
    c1: int,
    r2: int,
    c2: int,
    digit: i32,
    level: usize,
)
    requires
        first_eligible(board, r1, c1, digit, level),
        first_eligible(board, r2, c2, digit, level),
    ensures
        r1 == r2 && c1 == c2,
{
    if precedes(r1, c1, r2, c2) {
        assert(eligible_before(board, r2, c2, digit, level));
    } else if precedes(r2, c2, r1, c1) {
        assert(eligible_before(board, r1, c1, digit, level));
    }
}

/// A complete grid of digits holds a digit 1..=9 in every cell.
proof fn lemma_complete_digits(g: Grid)
    requires
        digits_only(g),
        populated_grid(g),
    ensures
        all_digits(g),
{
    assert forall|r: int, c: int| in_grid(r, c) implies 1 <= #[trigger] g[r][c] <= 9 by {
        assert(g[r][c] != 0);
        assert(0 <= g[r][c] <= 9);
    }
}

impl SudokuBoard {
    /// Tries one guess. The first cell in row-major order that is empty,
    /// lists at most `greed_level` candidates and lists `greedy_number`
    /// gets `greedy_number` in an independent copy of the board, and the copy
    /// is propagated and returned, complete or not. If no cell is eligible,
    /// an unchanged copy of the board is returned. The board itself is never
    /// touched.
    pub fn solve_greedy(s_board: &SudokuBoard, greedy_number: i32, greed_level: usize) -> (attempt:
        SudokuBoard)
        ensures
            attempt.grid() == guess_grid(*s_board, greedy_number, greed_level),
            forall|r: int, c: int|
                first_eligible(*s_board, r, c, greedy_number, greed_level) ==> attempt.grid()
                    == solved(with_cell(s_board.grid(), r, c, greedy_number as int))
                    && attempt.settled(),
            !eligible_before(*s_board, 9, 0, greedy_number, greed_level) ==> attempt.puzzle
                == s_board.puzzle && same_lists(
                attempt.possible_solutions,
                s_board.possible_solutions,
            ) && attempt.needs_solving == s_board.needs_solving,
            digits_only(s_board.grid()) && 1 <= greedy_number <= 9 ==> digits_only(attempt.grid()),
            s_board.consistent() ==> attempt.consistent(),
    {
        let mut i: usize = 0;
        while i < 9
            invariant
                i <= 9,
                !eligible_before(*s_board, i as int, 0, greedy_number, greed_level),
            decreases 9 - i,
        {
            let mut j: usize = 0;
            while j < 9
                invariant
                    i < 9,
                    j <= 9,
                    !eligible_before(*s_board, i as int, j as int, greedy_number, greed_level),
                decreases 9 - j,
            {
                if s_board.puzzle[i][j] == 0 && s_board.possible_solutions[i][j].len()
                    <= greed_level && list_contains(
                    &s_board.possible_solutions[i][j],
                    greedy_number,
                ) {
                    let mut test_board = s_board.clone();
                    let ghost before = test_board.puzzle;
                    test_board.puzzle[i][j] = greedy_number;
                    proof {
                        let g = s_board.grid();
                        let h = with_cell(g, i as int, j as int, greedy_number as int);
                        lemma_grid_view(s_board.puzzle);
                        lemma_grid_view(test_board.puzzle);
                        lemma_with_cell(g, i as int, j as int, greedy_number as int);
                        assert forall|r: int, c: int| in_grid(r, c) implies #[trigger] grid_view(
                            test_board.puzzle,
                        )[r][c] == h[r][c] by {
                            if !(r == i && c == j) {
                                assert(test_board.puzzle[r][c] == before[r][c]);
                            }
                        }
                        lemma_grid_ext(grid_view(test_board.puzzle), h);
                        assert(first_eligible(
                            *s_board,
                            i as int,
                            j as int,
                            greedy_number,
                            greed_level,
                        ));
                        assert forall|r: int, c: int|
                            first_eligible(
                                *s_board,
                                r,
                                c,
                                greedy_number,
                                greed_level,
                            ) implies r == i && c == j by {
                            lemma_first_eligible_unique(
                                *s_board,
                                r,
                                c,
                                i as int,
                                j as int,
                                greedy_number,
                                greed_level,
                            );
                        }
                        assert(precedes(i as int, j as int, 9, 0));
                        assert(eligible_before(*s_board, 9, 0, greedy_number, greed_level));
                        let (r, c) = choose|r: int, c: int|
                            first_eligible(*s_board, r, c, greedy_number, greed_level);
                        assert(r == i && c == j);
                        if digits_only(g) && 1 <= greedy_number <= 9 {
                            assert forall|r: int, c: int| in_grid(r, c) implies 0
                                <= #[trigger] h[r][c] <= 9 by {
                                if !(r == i && c == j) {
                                    assert(h[r][c] == g[r][c]);
                                }
                            }
                        }
                    }
                    SudokuBoard::solve_deterministic(&mut test_board);
                    return test_board;
                }
                proof {
                    if eligible_before(*s_board, i as int, j + 1, greedy_number, greed_level) {
                        let (r, c) = choose|r: int, c: int|
                            in_grid(r, c) && precedes(r, c, i as int, j + 1) && #[trigger] eligible(
                                *s_board,
                                r,
                                c,
                                greedy_number,
                                greed_level,
                            );
                        if !(r == i && c == j) {
                            assert(precedes(r, c, i as int, j as int));
                        }
                    }
                }
                j += 1;
            }
            proof {
                if eligible_before(*s_board, i + 1, 0, greedy_number, greed_level) {
                    let (r, c) = choose|r: int, c: int|
                        in_grid(r, c) && precedes(r, c, i + 1, 0) && #[trigger] eligible(
                            *s_board,
                            r,
                            c,
                            greedy_number,
                            greed_level,
                        );
                    assert(precedes(r, c, i as int, 9));
                }
            }
            i += 1;
        }
        proof {
            assert forall|r: int, c: int|
                !first_eligible(*s_board, r, c, greedy_number, greed_level) by {
                if in_grid(r, c) && eligible(*s_board, r, c, greedy_number, greed_level) {
                    assert(precedes(r, c, 9, 0));
                }
            }
        }
        s_board.clone()
    }

    /// Propagates the board; if that leaves it incomplete or invalid, tries
    /// the digits 1 to 9 in turn, each as one guess at the given greed level,
    /// and accepts the first whose board is complete and valid.
    pub fn solve_or_guess(s_board: &mut SudokuBoard, greed_level: usize) -> (outcome: SolveOutcome)
        requires
            digits_only(old(s_board).grid()),
        ensures
            final(s_board).grid() == solved(old(s_board).grid()),
            final(s_board).settled(),
            digits_only(final(s_board).grid()),
            match outcome {
                SolveOutcome::Propagated => complete_and_valid(final(s_board).grid()),
                SolveOutcome::Guessed(digit, board) => {
                    &&& !complete_and_valid(final(s_board).grid())
                    &&& 1 <= digit <= 9
                    &&& board.consistent()
                    &&& board.grid() == guess_grid(*final(s_board), digit, greed_level)
                    &&& complete_and_valid(board.grid())
                    &&& forall|d: i32|
                        1 <= d < digit ==> !complete_and_valid(
                            #[trigger] guess_grid(*final(s_board), d, greed_level),
                        )
                },
                SolveOutcome::Unsolved => {
                    &&& !complete_and_valid(final(s_board).grid())
                    &&& forall|d: i32|
                        1 <= d <= 9 ==> !complete_and_valid(
                            #[trigger] guess_grid(*final(s_board), d, greed_level),
                        )
                },
            },
    {
        SudokuBoard::solve_deterministic(s_board);
        if SudokuBoard::complete_and_valid_board(s_board) {
            return SolveOutcome::Propagated;
        }
        let mut i: i32 = 1;
        while i < 10
            invariant
                1 <= i <= 10,
                digits_only(s_board.grid()),
                s_board.grid() == solved(old(s_board).grid()),
                s_board.settled(),
                s_board.consistent(),
                !complete_and_valid(s_board.grid()),
                forall|d: i32|
                    1 <= d < i ==> !complete_and_valid(
                        #[trigger] guess_grid(*s_board, d, greed_level),
                    ),
            decreases 10 - i,
        {
            let attempted_puzzle = SudokuBoard::solve_greedy(s_board, i, greed_level);
            if SudokuBoard::complete_and_valid_board(&attempted_puzzle) {
                return SolveOutcome::Guessed(i, attempted_puzzle);
            }
            i += 1;
        }
        SolveOutcome::Unsolved
    }

    /// Whether the grid of digits is complete and obeys the uniqueness rule.
    pub fn complete_and_valid_board(board: &SudokuBoard) -> (ok: bool)
        requires
            digits_only(board.grid()),
        ensures
            ok == complete_and_valid(board.grid()),
    {
        if SudokuBoard::populated(board) {
            proof {
                lemma_complete_digits(board.grid());
            }
            SudokuBoard::validate_board(board)
        } else {
            false
        }
    }
}

} // verus!
