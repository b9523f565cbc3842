//! The fill scan: a cell with a single candidate takes it (naked single); a
//! cell that alone in its box can take some digit takes that digit (hidden
//! single).

use vstd::prelude::*;
use crate::board::{all_ascending, candidates_view, lemma_candidates_view, Candidates, SudokuBoard};
use crate::digits::{
    ascending, digit_set, lemma_ascending_single, lemma_filter_ascending, list_contains, single_of,
};
use crate::grid::{box_start, grid_view, in_grid, lemma_grid_ext, lemma_grid_view, precedes, Grid};

verus! {

/// The `k`-th cell of the box of `(r, c)` is another cell than `(r, c)` and
/// has `v` as a candidate.
pub open spec fn box_other_has(cs: Candidates, r: int, c: int, k: int, v: int) -> bool {
    let r2 = box_start(r) + k / 3;
    let c2 = box_start(c) + k % 3;
    !(r2 == r && c2 == c) && cs[r2][c2].contains(v)
}

/// Among the first `n` cells of the box of `(r, c)`, a cell other than
/// `(r, c)` has `v` as a candidate.
pub open spec fn others_in_box_have(cs: Candidates, r: int, c: int, n: int, v: int) -> bool {
    exists|k: int| 0 <= k < n && #[trigger] box_other_has(cs, r, c, k, v)
}

/// The test that keeps the digits no other cell of the box of `(r, c)` can take.
pub open spec fn hidden_pred(cs: Candidates, r: int, c: int) -> spec_fn(i32) -> bool {
    |v: i32| !others_in_box_have(cs, r, c, 9, v as int)
}

/// The candidates of `(r, c)` that no other cell of its box has.
pub open spec fn hidden_set(cs: Candidates, r: int, c: int) -> Set<int> {
    Set::new(|v: int| cs[r][c].contains(v) && !others_in_box_have(cs, r, c, 9, v))
}

/// The digit that the scan puts into an empty cell `(r, c)`, if any: its
/// single candidate, or else the single candidate that is hidden in its box.
pub open spec fn fill_choice(cs: Candidates, r: int, c: int) -> Option<int> {
    match single_of(cs[r][c]) {
        Some(v) => Some(v),
        None => single_of(hidden_set(cs, r, c)),
    }
}

/// The scan resolves cell `(r, c)`: the cell is empty and a rule applies to it.
pub open spec fn resolves(g: Grid, cs: Candidates, r: int, c: int) -> bool {
    g[r][c] == 0 && fill_choice(cs, r, c) is Some
}

/// The scan resolves some cell before `(i, j)` in row-major order.
pub open spec fn resolves_before(g: Grid, cs: Candidates, i: int, j: int) -> bool {
    exists|r: int, c: int| in_grid(r, c) && precedes(r, c, i, j) && #[trigger] resolves(g, cs, r, c)
}

/// The scan resolves some cell.
pub open spec fn resolves_any(g: Grid, cs: Candidates) -> bool {
    resolves_before(g, cs, 9, 0)
}

/// What cell `(r, c)` holds after the scan.
pub open spec fn fill_cell(g: Grid, cs: Candidates, r: int, c: int) -> int {
    if g[r][c] != 0 {
        g[r][c]
    } else {
        match fill_choice(cs, r, c) {
            Some(v) => v,
            None => 0,
        }
    }
}

/// The grid after the scan. Every cell is decided on the candidate sets as
/// they stand when the scan begins.
pub open spec fn filled(g: Grid, cs: Candidates) -> Grid {
    Seq::new(9, |r: int| Seq::new(9, |c: int| fill_cell(g, cs, r, c)))
}

/// The hidden singles of a cell, read from the list that the filter leaves.
pub proof fn lemma_hidden_list(a: [[Vec<i32>; 9]; 9], r: int, c: int)
    requires
        in_grid(r, c),
        ascending(a[r][c]@),
    ensures
        ascending(a[r][c]@.filter(hidden_pred(candidates_view(a), r, c))),
        digit_set(a[r][c]@.filter(hidden_pred(candidates_view(a), r, c))) == hidden_set(
            candidates_view(a),
            r,
            c,
        ),
{
    let cs = candidates_view(a);
    let pred = hidden_pred(cs, r, c);
    let hv = a[r][c]@.filter(pred);
    lemma_filter_ascending(a[r][c]@, pred);
    lemma_candidates_view(a);
    assert forall|d: int| digit_set(hv).contains(d) <==> hidden_set(cs, r, c).contains(d) by {
        if i32::MIN <= d <= i32::MAX {
            let v = d as i32;
            assert(hv.contains(v) <==> a[r][c]@.contains(v) && pred(v));
            assert(cs[r][c].contains(v as int) <==> a[r][c]@.contains(v));
        }
    }
    assert(digit_set(hv) =~= hidden_set(cs, r, c));
}

/// The scan's choice for a cell, read from its candidate list and from the
/// list of its hidden singles.
pub proof fn lemma_fill_choice(a: [[Vec<i32>; 9]; 9], r: int, c: int)
    requires
        in_grid(r, c),
        ascending(a[r][c]@),
    ensures
        ({
            let list = a[r][c]@;
            let hidden = list.filter(hidden_pred(candidates_view(a), r, c));
            fill_choice(candidates_view(a), r, c) == if list.len() == 1 {
                Some(list[0] as int)
            } else if hidden.len() == 1 {
                Some(hidden[0] as int)
            } else {
                None::<int>
            }
        }),
{
    let cs = candidates_view(a);
    let list = a[r][c]@;
    let hidden = list.filter(hidden_pred(cs, r, c));
    lemma_candidates_view(a);
    assert(cs[r][c] == digit_set(list));
    lemma_ascending_single(list);
    lemma_hidden_list(a, r, c);
    lemma_ascending_single(hidden);
}

/// Whether a cell of the box of `(row, col)`, other than `(row, col)`, lists `v`.
fn others_in_box_contain(possible_values: &[[Vec<i32>; 9]; 9], row: usize, col: usize, v: i32) -> (found:
    bool)
    requires
        row < 9,
        col < 9,
    ensures
        found == others_in_box_have(
            candidates_view(*possible_values),
            row as int,
            col as int,
            9,
            v as int,
        ),
{
    let ghost cs = candidates_view(*possible_values);
    let xy_boundary = SudokuBoard::get_boundaries_for_cell(row, col);
    proof {
        lemma_candidates_view(*possible_values);
    }
    let mut k: usize = 0;
    while k < 9
        invariant
            k <= 9,
            row < 9,
            col < 9,
            cs == candidates_view(*possible_values),
            xy_boundary.0 == box_start(row as int),
            xy_boundary.1 == box_start(col as int),
            forall|r: int, c: int, d: i32|
                in_grid(r, c) ==> (#[trigger] cs[r][c].contains(d as int)
                    <==> possible_values[r][c]@.contains(d)),
            forall|j: int| 0 <= j < k ==> !#[trigger] box_other_has(cs, row as int, col as int, j, v as int),
        decreases 9 - k,
    {
        let r2: usize = k / 3 + xy_boundary.0;
        let c2: usize = k % 3 + xy_boundary.1;
        assert(in_grid(r2 as int, c2 as int));
        if !(r2 == row && c2 == col) && list_contains(&possible_values[r2][c2], v) {
            assert(cs[r2 as int][c2 as int].contains(v as int));
            assert(box_other_has(cs, row as int, col as int, k as int, v as int));
            return true;
        }
        assert(cs[r2 as int][c2 as int].contains(v as int) <==> possible_values[r2 as int][c2 as int]@.contains(v));
        k += 1;
    }
    false
}

impl SudokuBoard {
    /// The candidates of cell `(row, col)` that no other cell of its box
    /// lists, in the order of the cell's list.
    pub fn get_box_values(possible_values: &[[Vec<i32>; 9]; 9], row: usize, col: usize) -> (values:
        Vec<i32>)
        requires
            row < 9,
            col < 9,
        ensures
            values@ == possible_values[row as int][col as int]@.filter(
                hidden_pred(candidates_view(*possible_values), row as int, col as int),
            ),
    {
        let ghost pred = hidden_pred(candidates_view(*possible_values), row as int, col as int);
        let ghost list = possible_values[row as int][col as int]@;
        let mut ret_vals: Vec<i32> = Vec::new();
        let mut e: usize = 0;
        assert(list.take(0) == Seq::<i32>::empty());
        assert(Seq::<i32>::empty().filter(pred) == Seq::<i32>::empty()) by {
            reveal(Seq::filter);
        }
        while e < possible_values[row][col].len()
            invariant
                row < 9,
                col < 9,
                e <= list.len(),
                list == possible_values[row as int][col as int]@,
                pred == hidden_pred(candidates_view(*possible_values), row as int, col as int),
                ret_vals@ == list.take(e as int).filter(pred),
            decreases list.len() - e,
        {
            let elem = possible_values[row][col][e];
            let keep = !others_in_box_contain(possible_values, row, col, elem);
            proof {
                assert(list.take(e + 1) == list.take(e as int).push(elem));
                list.take(e as int).lemma_filter_push(elem, pred);
                assert(keep == pred(elem));
            }
            if keep {
                ret_vals.push(elem);
            }
            e += 1;
        }
        assert(list.take(e as int) == list);
        ret_vals
    }

    /// The fill scan, in row-major order over the candidate lists as they
    /// stand: an empty cell with one candidate takes it; otherwise an empty
    /// cell with one hidden single takes that. The progress flag is raised
    /// when a cell is resolved.
    pub fn fill_singles(s_board: &mut SudokuBoard)
        requires
            all_ascending(old(s_board).possible_solutions),
        ensures
            final(s_board).grid() == filled(old(s_board).grid(), old(s_board).candidates()),
            final(s_board).possible_solutions == old(s_board).possible_solutions,
            final(s_board).needs_solving == (old(s_board).needs_solving || resolves_any(
                old(s_board).grid(),
                old(s_board).candidates(),
            )),
    {
        let ghost g0 = s_board.grid();
        let ghost cs = s_board.candidates();
        let ghost a = s_board.possible_solutions;
        proof {
            lemma_grid_view(s_board.puzzle);
        }
        let mut i: usize = 0;
        while i < 9
            invariant
                i <= 9,
                g0 == grid_view(old(s_board).puzzle),
                cs == candidates_view(a),
                a == old(s_board).possible_solutions,
                all_ascending(a),
                s_board.possible_solutions == a,
                forall|r: int, c: int|
                    in_grid(r, c) && precedes(r, c, i as int, 0) ==> #[trigger] s_board.puzzle[r][c]
                        == fill_cell(g0, cs, r, c),
                forall|r: int, c: int|
                    in_grid(r, c) && !precedes(r, c, i as int, 0) ==> #[trigger] s_board.puzzle[r][c]
                        == g0[r][c],
                s_board.needs_solving == (old(s_board).needs_solving || resolves_before(
                    g0,
                    cs,
                    i as int,
                    0,
                )),
            decreases 9 - i,
        {
            let mut j: usize = 0;
            while j < 9
                invariant
                    i < 9,
                    j <= 9,
                    g0 == grid_view(old(s_board).puzzle),
                    cs == candidates_view(a),
                    a == old(s_board).possible_solutions,
                    all_ascending(a),
                    s_board.possible_solutions == a,
                    forall|r: int, c: int|
                        in_grid(r, c) && precedes(r, c, i as int, j as int)
                            ==> #[trigger] s_board.puzzle[r][c] == fill_cell(g0, cs, r, c),
                    forall|r: int, c: int|
                        in_grid(r, c) && !precedes(r, c, i as int, j as int)
                            ==> #[trigger] s_board.puzzle[r][c] == g0[r][c],
                    s_board.needs_solving == (old(s_board).needs_solving || resolves_before(
                        g0,
                        cs,
                        i as int,
                        j as int,
                    )),
                decreases 9 - j,
            {
                let ghost before = s_board.puzzle;
                let ghost flag = s_board.needs_solving;
                proof {
                    assert(in_grid(i as int, j as int));
                    assert(s_board.puzzle[i as int][j as int] == g0[i as int][j as int]);
                    assert(ascending(a[i as int][j as int]@));
                    lemma_fill_choice(a, i as int, j as int);
                }
                if s_board.puzzle[i][j] == 0 {
                    if s_board.possible_solutions[i][j].len() == 1 {
                        s_board.needs_solving = true;
                        s_board.puzzle[i][j] = s_board.possible_solutions[i][j][0];
                    } else {
                        let possible_values_contextual: Vec<i32> = SudokuBoard::get_box_values(
                            &s_board.possible_solutions,
                            i,
                            j,
                        );
                        if possible_values_contextual.len() == 1 {
                            s_board.needs_solving = true;
                            s_board.puzzle[i][j] = possible_values_contextual[0];
                        }
                    }
                }
                proof {
                    assert(s_board.puzzle[i as int][j as int] == fill_cell(
                        g0,
                        cs,
                        i as int,
                        j as int,
                    ));
                    assert(s_board.needs_solving == (flag || resolves(g0, cs, i as int, j as int)));
                    assert forall|r: int, c: int|
                        in_grid(r, c) && !(r == i && c == j) implies #[trigger] s_board.puzzle[r][c]
                        == before[r][c] by {}
                    if resolves_before(g0, cs, i as int, j + 1) {
                        let (r, c) = choose|r: int, c: int|
                            in_grid(r, c) && precedes(r, c, i as int, j + 1) && #[trigger] resolves(
                                g0,
                                cs,
                                r,
                                c,
                            );
                        if !(r == i && c == j) {
                            assert(precedes(r, c, i as int, j as int));
                        }
                    }
                    if resolves_before(g0, cs, i as int, j as int) {
                        let (r, c) = choose|r: int, c: int|
                            in_grid(r, c) && precedes(r, c, i as int, j as int)
                                && #[trigger] resolves(g0, cs, r, c);
                        assert(precedes(r, c, i as int, j + 1));
                    }
                    if resolves(g0, cs, i as int, j as int) {
                        assert(precedes(i as int, j as int, i as int, j + 1));
                    }
                }
                j += 1;
            }
            proof {
                if resolves_before(g0, cs, i as int, 9) {
                    let (r, c) = choose|r: int, c: int|
                        in_grid(r, c) && precedes(r, c, i as int, 9) && #[trigger] resolves(
                            g0,
                            cs,
                            r,
                            c,
                        );
                    assert(precedes(r, c, i + 1, 0));
                }
                if resolves_before(g0, cs, i + 1, 0) {
                    let (r, c) = choose|r: int, c: int|
                        in_grid(r, c) && precedes(r, c, i + 1, 0) && #[trigger] resolves(
                            g0,
                            cs,
                            r,
                            c,
                        );
                    assert(precedes(r, c, i as int, 9));
                }
            }
            i += 1;
        }
        proof {
            lemma_grid_view(s_board.puzzle);
            assert forall|r: int, c: int| in_grid(r, c) implies #[trigger] grid_view(
                s_board.puzzle,
            )[r][c] == filled(g0, cs)[r][c] by {
                assert(precedes(r, c, 9, 0));
                assert(s_board.puzzle[r][c] == fill_cell(g0, cs, r, c));
            }
            lemma_grid_ext(grid_view(s_board.puzzle), filled(g0, cs));
        }
    }
}

} // verus!
