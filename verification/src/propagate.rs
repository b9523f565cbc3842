//! The propagator: rounds of candidate computation, elimination and fill
//! scan, repeated until a round fills no cell.

use vstd::prelude::*;
use crate::board::{
    all_ascending, candidates_view, lemma_candidates_view, same_lists, Candidates, SudokuBoard,
};
use crate::candidates::{candidate, candidates_of_grid, lemma_candidates_of_grid};
use crate::digits::{is_single, lemma_ascending_unique, single_of};
use crate::elimination::{digit_lists, eliminate, lemma_eliminate};
use crate::fill::{fill_cell, fill_choice, filled, hidden_set, resolves, resolves_any, resolves_before};
use crate::grid::{
    digits_only, empty_count, grid_view, in_grid, is_grid, keeps_placed,
    lemma_filling_never_adds_empties, lemma_filling_removes_an_empty, lemma_grid_ext,
    lemma_grid_view, precedes, Grid,
};

verus! {

/// The candidate sets that a round works on: those of the grid, after the
/// elimination pass.
pub open spec fn snapshot(g: Grid) -> Candidates {
    eliminate(candidates_of_grid(g))
}

/// The grid after one round.
pub open spec fn round(g: Grid) -> Grid {
    filled(g, snapshot(g))
}

/// A round on `g` resolves some cell.
pub open spec fn progress(g: Grid) -> bool {
    resolves_any(g, snapshot(g))
}

/// The grid after `n` rounds.
pub open spec fn after_rounds(g: Grid, n: nat) -> Grid
    decreases n,
{
    if n == 0 {
        g
    } else {
        round(after_rounds(g, (n - 1) as nat))
    }
}

/// The grid after rounds are run until one resolves no cell, or `rounds`
/// rounds have been run.
pub open spec fn propagate(g: Grid, rounds: nat) -> Grid
    decreases rounds,
{
    if rounds == 0 || !progress(g) {
        g
    } else {
        propagate(round(g), (rounds - 1) as nat)
    }
}

/// The grid that propagation ends with. A grid has 81 cells, so 81 rounds
/// that each fill a cell are the most there can be.
pub open spec fn solved(g: Grid) -> Grid {
    propagate(g, 81)
}

/// The only member of a set is a member of it.
proof fn lemma_single_is_member(s: Set<int>, v: int)
    requires
        single_of(s) == Some(v),
    ensures
        s.contains(v),
{
    let w = choose|w: int| is_single(s, w);
    assert(is_single(s, w));
}

/// The candidates that a round works on are candidates of the grid: digits
/// 1..=9 of empty cells.
pub proof fn lemma_snapshot_members(g: Grid, r: int, c: int, v: int)
    requires
        in_grid(r, c),
        snapshot(g)[r][c].contains(v),
    ensures
        candidate(g, r, c, v),
        g[r][c] == 0,
        1 <= v <= 9,
{
    lemma_candidates_of_grid(g);
    lemma_eliminate(candidates_of_grid(g));
}

/// What a round puts into a cell is one of the cell's candidates.
pub proof fn lemma_round_fills_candidates(g: Grid, r: int, c: int)
    requires
        in_grid(r, c),
        resolves(g, snapshot(g), r, c),
    ensures
        candidate(g, r, c, round(g)[r][c]),
        1 <= round(g)[r][c] <= 9,
{
    let cs = snapshot(g);
    let v = fill_choice(cs, r, c)->Some_0;
    assert(round(g)[r][c] == fill_cell(g, cs, r, c));
    match single_of(cs[r][c]) {
        Some(w) => {
            lemma_single_is_member(cs[r][c], w);
        },
        None => {
            lemma_single_is_member(hidden_set(cs, r, c), v);
        },
    }
    lemma_snapshot_members(g, r, c, v);
}

/// A round keeps every placed digit, keeps a grid of digits a grid of
/// digits, and changes exactly the cells that it resolves.
pub proof fn lemma_round(g: Grid)
    ensures
        is_grid(round(g)),
        keeps_placed(g, round(g)),
        digits_only(g) ==> digits_only(round(g)),
        forall|r: int, c: int|
            in_grid(r, c) ==> (#[trigger] round(g)[r][c] != g[r][c] <==> resolves(
                g,
                snapshot(g),
                r,
                c,
            )),
{
    let cs = snapshot(g);
    assert forall|r: int, c: int| in_grid(r, c) implies (#[trigger] round(g)[r][c] != g[r][c]
        <==> resolves(g, cs, r, c)) && (0 <= g[r][c] <= 9 ==> 0 <= round(g)[r][c] <= 9) by {
        assert(round(g)[r][c] == fill_cell(g, cs, r, c));
        if resolves(g, cs, r, c) {
            lemma_round_fills_candidates(g, r, c);
        }
    }
    if digits_only(g) {
        assert forall|r: int, c: int| in_grid(r, c) implies 0 <= #[trigger] round(g)[r][c] <= 9 by {
            assert(0 <= g[r][c] <= 9);
        }
    }
    assert forall|r: int, c: int| in_grid(r, c) && #[trigger] g[r][c] != 0 implies round(g)[r][c]
        == g[r][c] by {
        assert(round(g)[r][c] == fill_cell(g, cs, r, c));
    }
}

/// A round that resolves no cell leaves the grid as it is.
pub proof fn lemma_round_without_progress(g: Grid)
    requires
        is_grid(g),
        !progress(g),
    ensures
        round(g) == g,
{
    lemma_round(g);
    assert forall|r: int, c: int| in_grid(r, c) implies #[trigger] round(g)[r][c] == g[r][c] by {
        if round(g)[r][c] != g[r][c] {
            assert(resolves(g, snapshot(g), r, c));
            assert(precedes(r, c, 9, 0));
            assert(resolves_before(g, snapshot(g), 9, 0));
        }
    }
    lemma_grid_ext(round(g), g);
}

/// A round never raises the number of empty cells, and lowers it when it
/// resolves a cell.
pub proof fn lemma_round_never_adds_empties(g: Grid)
    ensures
        empty_count(round(g)) <= empty_count(g) <= 81,
        progress(g) ==> empty_count(round(g)) < empty_count(g),
{
    lemma_round(g);
    lemma_filling_never_adds_empties(g, round(g));
    if progress(g) {
        let (r, c) = choose|r: int, c: int|
            in_grid(r, c) && precedes(r, c, 9, 0) && #[trigger] resolves(g, snapshot(g), r, c);
        assert(round(g)[r][c] != g[r][c]);
        lemma_filling_removes_an_empty(g, round(g), r, c);
    }
}

/// Propagation keeps every placed digit and keeps a grid of digits a grid
/// of digits; given as many rounds as there are empty cells, it ends with a
/// grid on which a round resolves nothing.
pub proof fn lemma_propagate(g: Grid, rounds: nat)
    requires
        is_grid(g),
    ensures
        is_grid(propagate(g, rounds)),
        keeps_placed(g, propagate(g, rounds)),
        digits_only(g) ==> digits_only(propagate(g, rounds)),
        empty_count(propagate(g, rounds)) <= empty_count(g),
        empty_count(g) <= rounds ==> !progress(propagate(g, rounds)),
    decreases rounds,
{
    if rounds == 0 || !progress(g) {
        lemma_round_never_adds_empties(g);
    } else {
        lemma_round(g);
        lemma_round_never_adds_empties(g);
        lemma_propagate(round(g), (rounds - 1) as nat);
        let h = propagate(round(g), (rounds - 1) as nat);
        assert forall|r: int, c: int| in_grid(r, c) && #[trigger] g[r][c] != 0 implies h[r][c]
            == g[r][c] by {
            assert(round(g)[r][c] == g[r][c]);
        }
    }
}

/// Rounds on a grid on which a round resolves nothing change nothing.
pub proof fn lemma_after_rounds_at_fixed_point(g: Grid, n: nat)
    requires
        is_grid(g),
        !progress(g),
    ensures
        after_rounds(g, n) == g,
    decreases n,
{
    if n > 0 {
        lemma_after_rounds_at_fixed_point(g, (n - 1) as nat);
        lemma_round_without_progress(g);
    }
}

/// Running `n` rounds one after another is running one round and then `n - 1`.
proof fn lemma_after_rounds_unfold(g: Grid, n: nat)
    requires
        n > 0,
    ensures
        after_rounds(g, n) == after_rounds(round(g), (n - 1) as nat),
    decreases n,
{
    if n > 1 {
        lemma_after_rounds_unfold(g, (n - 1) as nat);
        assert(after_rounds(g, n) == round(after_rounds(g, (n - 1) as nat)));
        assert(after_rounds(round(g), (n - 1) as nat) == round(
            after_rounds(round(g), (n - 2) as nat),
        ));
    } else {
        assert(after_rounds(g, 0) == g);
        assert(after_rounds(g, 1) == round(after_rounds(g, 0)));
        assert(after_rounds(round(g), 0) == round(g));
    }
}

/// Stopping at the first round that resolves nothing gives the grid that
/// running all the rounds gives.
pub proof fn lemma_propagate_is_after_rounds(g: Grid, n: nat)
    requires
        is_grid(g),
    ensures
        propagate(g, n) == after_rounds(g, n),
    decreases n,
{
    if n == 0 {
    } else if !progress(g) {
        lemma_after_rounds_at_fixed_point(g, n);
    } else {
        lemma_round(g);
        lemma_propagate_is_after_rounds(round(g), (n - 1) as nat);
        lemma_after_rounds_unfold(g, n);
    }
}

/// From one round to the next the number of empty cells never rises.
pub proof fn lemma_rounds_never_add_empties(g: Grid, n: nat)
    ensures
        empty_count(after_rounds(g, n + 1)) <= empty_count(after_rounds(g, n)),
{
    lemma_round_never_adds_empties(after_rounds(g, n));
}

/// Within 81 rounds the grid reaches a fixed point: a further round resolves
/// nothing and changes nothing, and that grid is the one propagation ends with.
pub proof fn lemma_fixed_point_within_81_rounds(g: Grid)
    requires
        is_grid(g),
    ensures
        after_rounds(g, 81) == solved(g),
        !progress(after_rounds(g, 81)),
        round(after_rounds(g, 81)) == after_rounds(g, 81),
{
    lemma_propagate_is_after_rounds(g, 81);
    lemma_round_never_adds_empties(g);
    lemma_propagate(g, 81);
    lemma_round_without_progress(solved(g));
}

/// Propagation leaves a grid at a fixed point as it is.
pub proof fn lemma_fixed_point_is_kept(g: Grid)
    requires
        !progress(g),
    ensures
        solved(g) == g,
{
}

/// Propagation ends at a fixed point, so propagating once more changes
/// neither the grid nor the candidates that belong to it.
pub proof fn lemma_propagation_idempotent(g: Grid)
    requires
        is_grid(g),
    ensures
        !progress(solved(g)),
        solved(solved(g)) == solved(g),
        snapshot(solved(solved(g))) == snapshot(solved(g)),
{
    lemma_round_never_adds_empties(g);
    lemma_propagate(g, 81);
}

/// Two executable grids with the same model are the same grid.
pub proof fn lemma_same_grid(a: [[i32; 9]; 9], b: [[i32; 9]; 9])
    requires
        grid_view(a) == grid_view(b),
    ensures
        a == b,
{
    lemma_grid_view(a);
    lemma_grid_view(b);
    assert forall|r: int| 0 <= r < 9 implies a[r] == b[r] by {
        assert forall|c: int| 0 <= c < 9 implies a[r][c] == b[r][c] by {
            assert(in_grid(r, c));
            assert(grid_view(a)[r][c] == a[r][c] as int);
            assert(grid_view(b)[r][c] == b[r][c] as int);
        }
        assert(a[r] =~= b[r]);
    }
    assert(a =~= b);
}

/// Two tables of ascending lists with the same model hold the same lists.
pub proof fn lemma_same_candidates(a: [[Vec<i32>; 9]; 9], b: [[Vec<i32>; 9]; 9])
    requires
        all_ascending(a),
        all_ascending(b),
        candidates_view(a) == candidates_view(b),
    ensures
        same_lists(a, b),
{
    lemma_candidates_view(a);
    lemma_candidates_view(b);
    assert forall|r: int, c: int| in_grid(r, c) implies #[trigger] a[r][c]@ == b[r][c]@ by {
        assert forall|d: i32| a[r][c]@.contains(d) <==> b[r][c]@.contains(d) by {
            assert(candidates_view(a)[r][c].contains(d as int) <==> a[r][c]@.contains(d));
            assert(candidates_view(b)[r][c].contains(d as int) <==> b[r][c]@.contains(d));
        }
        lemma_ascending_unique(a[r][c]@, b[r][c]@);
    }
}

impl SudokuBoard {
    /// The board is at a fixed point of the propagation: a round resolves no
    /// cell, the candidate lists are those of the last round, and the
    /// progress flag is down.
    pub open spec fn settled(&self) -> bool {
        &&& !progress(self.grid())
        &&& all_ascending(self.possible_solutions)
        &&& self.candidates() == snapshot(self.grid())
        &&& !self.needs_solving
    }

    /// A board at a fixed point of the propagation has candidate lists that
    /// fit its grid.
    pub proof fn lemma_settled_is_consistent(self)
        requires
            self.settled(),
        ensures
            self.consistent(),
    {
        lemma_candidates_view(self.possible_solutions);
        assert forall|r: int, c: int, d: i32|
            in_grid(r, c) && #[trigger] self.possible_solutions[r][c]@.contains(
                d,
            ) implies candidate(self.grid(), r, c, d as int) by {
            assert(self.candidates()[r][c].contains(d as int));
            lemma_snapshot_members(self.grid(), r, c, d as int);
        }
    }

    /// Runs rounds until one fills no cell. Each round computes the
    /// candidates of the grid afresh, runs the elimination pass and then the
    /// fill scan. The grid may be left incomplete.
    pub fn solve_deterministic(s_board: &mut SudokuBoard)
        ensures
            final(s_board).grid() == solved(old(s_board).grid()),
            final(s_board).settled(),
            final(s_board).consistent(),
            digit_lists(final(s_board).possible_solutions),
            keeps_placed(old(s_board).grid(), final(s_board).grid()),
            empty_count(final(s_board).grid()) <= empty_count(old(s_board).grid()),
            digits_only(old(s_board).grid()) ==> digits_only(final(s_board).grid()),
            !progress(old(s_board).grid()) ==> final(s_board).puzzle == old(s_board).puzzle,
            old(s_board).settled() ==> same_lists(
                final(s_board).possible_solutions,
                old(s_board).possible_solutions,
            ),
    {
        let ghost g_in = s_board.grid();
        let ghost mut rounds: nat = 81;
        proof {
            lemma_grid_view(s_board.puzzle);
            lemma_round_never_adds_empties(g_in);
        }
        s_board.needs_solving = true;
        while s_board.needs_solving
            invariant
                is_grid(g_in),
                solved(g_in) == propagate(s_board.grid(), rounds),
                empty_count(s_board.grid()) <= rounds,
                !s_board.needs_solving ==> s_board.settled() && digit_lists(
                    s_board.possible_solutions,
                ),
            decreases
                    rounds + if s_board.needs_solving {
                        1nat
                    } else {
                        0nat
                    },
        {
            let ghost g = s_board.grid();
            s_board.needs_solving = false;
            s_board.possible_solutions = SudokuBoard::calc_possible_solutions(s_board);
            proof {
                lemma_candidates_view(s_board.possible_solutions);
                lemma_candidates_of_grid(g);
                assert forall|r: int, c: int, d: i32|
                    in_grid(r, c) && #[trigger] s_board.possible_solutions[r][c]@.contains(
                        d,
                    ) implies 1 <= d <= 9 by {
                    assert(candidates_of_grid(g)[r][c].contains(d as int));
                }
            }
            SudokuBoard::eliminate_locked_candidates(s_board);
            SudokuBoard::fill_singles(s_board);
            proof {
                lemma_grid_view(s_board.puzzle);
                lemma_round_never_adds_empties(g);
                if progress(g) {
                    rounds = (rounds - 1) as nat;
                } else {
                    lemma_round_without_progress(g);
                }
            }
        }
        proof {
            lemma_propagate(g_in, 81);
            s_board.lemma_settled_is_consistent();
            if !progress(g_in) {
                lemma_same_grid(s_board.puzzle, old(s_board).puzzle);
            }
            if old(s_board).settled() {
                lemma_same_candidates(s_board.possible_solutions, old(s_board).possible_solutions);
            }
        }
    }
}

} // verus!
