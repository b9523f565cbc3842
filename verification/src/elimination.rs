//! The elimination pass: a digit that a box confines to one of its rows (or
//! columns) is struck from the rest of that row (or column) outside the box.

use vstd::prelude::*;
use crate::board::{
    all_ascending, candidates_view, is_candidates, lemma_candidates_ext, lemma_candidates_view,
    Candidates, ColGroup, RowGroup, SudokuBoard,
};
use crate::digits::{ascending, list_contains};
use crate::grid::{box_start, in_grid};

verus! {

/// One of the three cells of row `r` that start at column `bc` has `v` as a candidate.
pub open spec fn row_segment_has(cs: Candidates, r: int, bc: int, v: int) -> bool {
    cs[r][bc].contains(v) || cs[r][bc + 1].contains(v) || cs[r][bc + 2].contains(v)
}

/// One of the three cells of column `c` that start at row `br` has `v` as a candidate.
pub open spec fn col_segment_has(cs: Candidates, br: int, c: int, v: int) -> bool {
    cs[br][c].contains(v) || cs[br + 1][c].contains(v) || cs[br + 2][c].contains(v)
}

/// Within the box that holds row `r` and starts at column `bc`, the candidate
/// `v` occurs in row `r` and in neither of the box's other two rows.
pub open spec fn locked_in_row(cs: Candidates, r: int, bc: int, v: int) -> bool {
    let br = box_start(r);
    &&& row_segment_has(cs, r, bc, v)
    &&& (br != r ==> !row_segment_has(cs, br, bc, v))
    &&& (br + 1 != r ==> !row_segment_has(cs, br + 1, bc, v))
    &&& (br + 2 != r ==> !row_segment_has(cs, br + 2, bc, v))
}

/// Within the box that holds column `c` and starts at row `br`, the candidate
/// `v` occurs in column `c` and in neither of the box's other two columns.
pub open spec fn locked_in_col(cs: Candidates, br: int, c: int, v: int) -> bool {
    let bc = box_start(c);
    &&& col_segment_has(cs, br, c, v)
    &&& (bc != c ==> !col_segment_has(cs, br, bc, v))
    &&& (bc + 1 != c ==> !col_segment_has(cs, br, bc + 1, v))
    &&& (bc + 2 != c ==> !col_segment_has(cs, br, bc + 2, v))
}

/// The pass strikes `v` from cell `(r, c)`: some box other than the cell's own
/// confines `v` to the cell's row, or to the cell's column.
pub open spec fn eliminated(cs: Candidates, r: int, c: int, v: int) -> bool {
    ||| box_start(c) != 0 && locked_in_row(cs, r, 0, v)
    ||| box_start(c) != 3 && locked_in_row(cs, r, 3, v)
    ||| box_start(c) != 6 && locked_in_row(cs, r, 6, v)
    ||| box_start(r) != 0 && locked_in_col(cs, 0, c, v)
    ||| box_start(r) != 3 && locked_in_col(cs, 3, c, v)
    ||| box_start(r) != 6 && locked_in_col(cs, 6, c, v)
}

/// The candidate sets after the pass. Every removal is decided on the sets as
/// they were before the pass.
pub open spec fn eliminate(cs: Candidates) -> Candidates {
    Seq::new(
        9,
        |r: int|
            Seq::new(9, |c: int| Set::new(|v: int| cs[r][c].contains(v) && !eliminated(cs, r, c, v))),
    )
}

/// Every listed candidate is a digit 1..=9.
pub open spec fn digit_lists(a: [[Vec<i32>; 9]; 9]) -> bool {
    forall|r: int, c: int, d: i32|
        in_grid(r, c) && #[trigger] a[r][c]@.contains(d) ==> 1 <= d <= 9
}

/// The table after the pass has nine rows of nine sets; each holds the old
/// candidates that the pass did not strike.
pub proof fn lemma_eliminate(cs: Candidates)
    ensures
        is_candidates(eliminate(cs)),
        forall|r: int, c: int, v: int|
            in_grid(r, c) ==> (#[trigger] eliminate(cs)[r][c].contains(v) <==> cs[r][c].contains(v)
                && !eliminated(cs, r, c, v)),
{
}

/// Line-group `m` (rows 0..3, then columns 3..6) of the box in band `x` and
/// stack `y` schedules the removal of `v` from cell `(r, c)`.
pub open spec fn scheduled_by(cs: Candidates, x: int, y: int, m: int, r: int, c: int, v: int) -> bool {
    if m < 3 {
        r == 3 * x + m && box_start(c) != 3 * y && locked_in_row(cs, r, 3 * y, v)
    } else {
        c == 3 * y + (m - 3) && box_start(r) != 3 * x && locked_in_col(cs, 3 * x, c, v)
    }
}

/// `(x, y, m)` names a line-group that is handled before `(bx, by, bm)`.
pub open spec fn line_before(x: int, y: int, m: int, bx: int, by: int, bm: int) -> bool {
    &&& 0 <= x < 3
    &&& 0 <= y < 3
    &&& 0 <= m < 6
    &&& (x < bx || (x == bx && (y < by || (y == by && m < bm))))
}

/// A line-group handled before `(bx, by, bm)` schedules the removal of `v` from `(r, c)`.
pub open spec fn scheduled_before(
    cs: Candidates,
    bx: int,
    by: int,
    bm: int,
    r: int,
    c: int,
    v: int,
) -> bool {
    exists|x: int, y: int, m: int|
        line_before(x, y, m, bx, by, bm) && #[trigger] scheduled_by(cs, x, y, m, r, c, v)
}

/// Once all 54 line-groups are handled, the scheduled removals are exactly
/// the eliminations.
pub proof fn lemma_all_scheduled(cs: Candidates, r: int, c: int, v: int)
    requires
        in_grid(r, c),
    ensures
        scheduled_before(cs, 3, 0, 0, r, c, v) <==> eliminated(cs, r, c, v),
{
    if scheduled_before(cs, 3, 0, 0, r, c, v) {
        let (x, y, m) = choose|x: int, y: int, m: int|
            line_before(x, y, m, 3, 0, 0) && #[trigger] scheduled_by(cs, x, y, m, r, c, v);
        assert(eliminated(cs, r, c, v));
    }
    if eliminated(cs, r, c, v) {
        let x = box_start(r) / 3;
        let y = box_start(c) / 3;
        if box_start(c) != 0 && locked_in_row(cs, r, 0, v) {
            assert(line_before(x, 0, r - 3 * x, 3, 0, 0) && scheduled_by(cs, x, 0, r - 3 * x, r, c, v));
        } else if box_start(c) != 3 && locked_in_row(cs, r, 3, v) {
            assert(line_before(x, 1, r - 3 * x, 3, 0, 0) && scheduled_by(cs, x, 1, r - 3 * x, r, c, v));
        } else if box_start(c) != 6 && locked_in_row(cs, r, 6, v) {
            assert(line_before(x, 2, r - 3 * x, 3, 0, 0) && scheduled_by(cs, x, 2, r - 3 * x, r, c, v));
        } else if box_start(r) != 0 && locked_in_col(cs, 0, c, v) {
            assert(line_before(0, y, c - 3 * y + 3, 3, 0, 0) && scheduled_by(
                cs,
                0,
                y,
                c - 3 * y + 3,
                r,
                c,
                v,
            ));
        } else if box_start(r) != 3 && locked_in_col(cs, 3, c, v) {
            assert(line_before(1, y, c - 3 * y + 3, 3, 0, 0) && scheduled_by(
                cs,
                1,
                y,
                c - 3 * y + 3,
                r,
                c,
                v,
            ));
        } else {
            assert(line_before(2, y, c - 3 * y + 3, 3, 0, 0) && scheduled_by(
                cs,
                2,
                y,
                c - 3 * y + 3,
                r,
                c,
                v,
            ));
        }
    }
}

/// One of the three lists of a line-group holds `v`.
pub open spec fn segment_has(lists: Seq<&Vec<i32>>, v: i32) -> bool {
    lists[0]@.contains(v) || lists[1]@.contains(v) || lists[2]@.contains(v)
}

/// The removal `t` lies on the line `fixed` (a row if `along_row`, else a
/// column), outside the three cells that start at `start`.
pub open spec fn on_line_outside(fixed: usize, start: usize, along_row: bool, t: (usize, usize, i32)) -> bool {
    let pos = if along_row {
        t.1
    } else {
        t.0
    };
    let line = if along_row {
        t.0
    } else {
        t.1
    };
    line == fixed && pos < 9 && (pos < start || pos >= start + 3)
}

/// A pushed entry is found again, and nothing else is.
proof fn lemma_push_contains(s: Seq<(usize, usize, i32)>, x: (usize, usize, i32))
    ensures
        forall|t: (usize, usize, i32)| s.push(x).contains(t) <==> s.contains(t) || t == x,
{
    assert forall|t: (usize, usize, i32)| s.push(x).contains(t) <==> s.contains(t) || t == x by {
        if s.contains(t) {
            let k = choose|k: int| 0 <= k < s.len() && s[k] == t;
            assert(s.push(x)[k] == t);
        }
        if t == x {
            assert(s.push(x)[s.len() as int] == t);
        }
    }
}

/// Whether one of the three lists of a line-group holds `v`.
fn line_contains(line: &Vec<&Vec<i32>>, v: i32) -> (found: bool)
    requires
        line@.len() == 3,
    ensures
        found == segment_has(line@, v),
{
    list_contains(line[0], v) || list_contains(line[1], v) || list_contains(line[2], v)
}

/// Schedules the removal of `v` from every cell of the line outside the box.
fn schedule_outside(
    fixed: usize,
    start: usize,
    along_row: bool,
    v: i32,
    removable: &mut Vec<(usize, usize, i32)>,
)
    requires
        fixed < 9,
        start <= 6,
    ensures
        forall|t: (usize, usize, i32)|
            final(removable)@.contains(t) <==> old(removable)@.contains(t) || (t.2 == v
                && on_line_outside(fixed, start, along_row, t)),
{
    let mut i: usize = 0;
    while i < 9
        invariant
            i <= 9,
            fixed < 9,
            start <= 6,
            forall|t: (usize, usize, i32)|
                removable@.contains(t) <==> old(removable)@.contains(t) || (t.2 == v
                    && on_line_outside(fixed, start, along_row, t) && (if along_row {
                    t.1
                } else {
                    t.0
                }) < i),
        decreases 9 - i,
    {
        if i < start || i >= start + 3 {
            let entry = if along_row {
                (fixed, i, v)
            } else {
                (i, fixed, v)
            };
            proof {
                lemma_push_contains(removable@, entry);
            }
            removable.push(entry);
        }
        i += 1;
    }
}

/// Schedules, for every digit of `list` that neither of the two other
/// line-groups holds, its removal from the line outside the box.
fn schedule_list(
    list: &Vec<i32>,
    other_a: &Vec<&Vec<i32>>,
    other_b: &Vec<&Vec<i32>>,
    fixed: usize,
    start: usize,
    along_row: bool,
    removable: &mut Vec<(usize, usize, i32)>,
)
    requires
        other_a@.len() == 3,
        other_b@.len() == 3,
        fixed < 9,
        start <= 6,
    ensures
        forall|t: (usize, usize, i32)|
            final(removable)@.contains(t) <==> old(removable)@.contains(t) || (list@.contains(t.2)
                && !segment_has(other_a@, t.2) && !segment_has(other_b@, t.2) && on_line_outside(
                fixed,
                start,
                along_row,
                t,
            )),
{
    let mut e: usize = 0;
    while e < list.len()
        invariant
            e <= list.len(),
            other_a@.len() == 3,
            other_b@.len() == 3,
            fixed < 9,
            start <= 6,
            forall|t: (usize, usize, i32)|
                removable@.contains(t) <==> old(removable)@.contains(t) || (list@.take(
                    e as int,
                ).contains(t.2) && !segment_has(other_a@, t.2) && !segment_has(other_b@, t.2)
                    && on_line_outside(fixed, start, along_row, t)),
        decreases list.len() - e,
    {
        let v = list[e];
        let ghost before = removable@;
        if !line_contains(other_a, v) && !line_contains(other_b, v) {
            schedule_outside(fixed, start, along_row, v, removable);
        }
        proof {
            let shorter = list@.take(e as int);
            let longer = list@.take(e + 1);
            assert forall|d: i32| longer.contains(d) <==> shorter.contains(d) || d == v by {
                if shorter.contains(d) {
                    let k = choose|k: int| 0 <= k < shorter.len() && shorter[k] == d;
                    assert(longer[k] == d);
                }
                if d == v {
                    assert(longer[e as int] == d);
                }
                if longer.contains(d) {
                    let k = choose|k: int| 0 <= k < longer.len() && longer[k] == d;
                    if k < e {
                        assert(shorter[k] == d);
                    }
                }
            }
        }
        e += 1;
    }
    assert(list@.take(e as int) == list@);
}

/// Handles one line-group of a box: every candidate that occurs in `line` and
/// in neither `other_a` nor `other_b` is scheduled for removal from the line
/// outside the box.
fn schedule_line(
    line: &Vec<&Vec<i32>>,
    other_a: &Vec<&Vec<i32>>,
    other_b: &Vec<&Vec<i32>>,
    fixed: usize,
    start: usize,
    along_row: bool,
    removable: &mut Vec<(usize, usize, i32)>,
)
    requires
        line@.len() == 3,
        other_a@.len() == 3,
        other_b@.len() == 3,
        fixed < 9,
        start <= 6,
    ensures
        forall|t: (usize, usize, i32)|
            final(removable)@.contains(t) <==> old(removable)@.contains(t) || (segment_has(
                line@,
                t.2,
            ) && !segment_has(other_a@, t.2) && !segment_has(other_b@, t.2) && on_line_outside(
                fixed,
                start,
                along_row,
                t,
            )),
{
    schedule_list(line[0], other_a, other_b, fixed, start, along_row, removable);
    schedule_list(line[1], other_a, other_b, fixed, start, along_row, removable);
    schedule_list(line[2], other_a, other_b, fixed, start, along_row, removable);
}

/// Handling one more line-group adds exactly what that line-group schedules.
proof fn lemma_scheduled_step(cs: Candidates, x: int, y: int, m: int, r: int, c: int, v: int)
    requires
        0 <= x < 3,
        0 <= y < 3,
        0 <= m < 6,
    ensures
        scheduled_before(cs, x, y, m + 1, r, c, v) <==> scheduled_before(cs, x, y, m, r, c, v)
            || scheduled_by(cs, x, y, m, r, c, v),
        scheduled_before(cs, x, y, 6, r, c, v) <==> scheduled_before(cs, x, y + 1, 0, r, c, v),
        scheduled_before(cs, x, 3, 0, r, c, v) <==> scheduled_before(cs, x + 1, 0, 0, r, c, v),
        !scheduled_before(cs, 0, 0, 0, r, c, v),
{
    if scheduled_before(cs, x, y, m + 1, r, c, v) {
        let (x1, y1, m1) = choose|x1: int, y1: int, m1: int|
            line_before(x1, y1, m1, x, y, m + 1) && #[trigger] scheduled_by(cs, x1, y1, m1, r, c, v);
        if !(x1 == x && y1 == y && m1 == m) {
            assert(line_before(x1, y1, m1, x, y, m));
        }
    }
    if scheduled_before(cs, x, y, m, r, c, v) {
        let (x1, y1, m1) = choose|x1: int, y1: int, m1: int|
            line_before(x1, y1, m1, x, y, m) && #[trigger] scheduled_by(cs, x1, y1, m1, r, c, v);
        assert(line_before(x1, y1, m1, x, y, m + 1));
    }
    if scheduled_by(cs, x, y, m, r, c, v) {
        assert(line_before(x, y, m, x, y, m + 1));
    }
    if scheduled_before(cs, x, y, 6, r, c, v) {
        let (x1, y1, m1) = choose|x1: int, y1: int, m1: int|
            line_before(x1, y1, m1, x, y, 6) && #[trigger] scheduled_by(cs, x1, y1, m1, r, c, v);
        assert(line_before(x1, y1, m1, x, y + 1, 0));
    }
    if scheduled_before(cs, x, y + 1, 0, r, c, v) {
        let (x1, y1, m1) = choose|x1: int, y1: int, m1: int|
            line_before(x1, y1, m1, x, y + 1, 0) && #[trigger] scheduled_by(
                cs,
                x1,
                y1,
                m1,
                r,
                c,
                v,
            );
        assert(line_before(x1, y1, m1, x, y, 6));
    }
    if scheduled_before(cs, x, 3, 0, r, c, v) {
        let (x1, y1, m1) = choose|x1: int, y1: int, m1: int|
            line_before(x1, y1, m1, x, 3, 0) && #[trigger] scheduled_by(cs, x1, y1, m1, r, c, v);
        assert(line_before(x1, y1, m1, x + 1, 0, 0));
    }
    if scheduled_before(cs, x + 1, 0, 0, r, c, v) {
        let (x1, y1, m1) = choose|x1: int, y1: int, m1: int|
            line_before(x1, y1, m1, x + 1, 0, 0) && #[trigger] scheduled_by(
                cs,
                x1,
                y1,
                m1,
                r,
                c,
                v,
            );
        assert(line_before(x1, y1, m1, x, 3, 0));
    }
}

/// The three lists are those of row `r`, columns `bc..bc + 3`, of the table.
pub open spec fn is_row_segment(a: [[Vec<i32>; 9]; 9], lists: Seq<&Vec<i32>>, r: int, bc: int) -> bool {
    &&& lists.len() == 3
    &&& forall|k: int| 0 <= k < 3 ==> *(#[trigger] lists[k]) == a[r][bc + k]
}

/// The three lists are those of column `c`, rows `br..br + 3`, of the table.
pub open spec fn is_col_segment(a: [[Vec<i32>; 9]; 9], lists: Seq<&Vec<i32>>, br: int, c: int) -> bool {
    &&& lists.len() == 3
    &&& forall|k: int| 0 <= k < 3 ==> *(#[trigger] lists[k]) == a[br + k][c]
}

/// What the lists of a row segment hold is what the model holds there.
proof fn lemma_row_segment(a: [[Vec<i32>; 9]; 9], lists: Seq<&Vec<i32>>, r: int, bc: int, v: i32)
    requires
        0 <= r < 9,
        0 <= bc <= 6,
        is_row_segment(a, lists, r, bc),
    ensures
        segment_has(lists, v) <==> row_segment_has(candidates_view(a), r, bc, v as int),
{
    lemma_candidates_view(a);
    assert(*lists[0] == a[r][bc] && *lists[1] == a[r][bc + 1] && *lists[2] == a[r][bc + 2]);
    assert(in_grid(r, bc) && in_grid(r, bc + 1) && in_grid(r, bc + 2));
}

/// What the lists of a column segment hold is what the model holds there.
proof fn lemma_col_segment(a: [[Vec<i32>; 9]; 9], lists: Seq<&Vec<i32>>, br: int, c: int, v: i32)
    requires
        0 <= c < 9,
        0 <= br <= 6,
        is_col_segment(a, lists, br, c),
    ensures
        segment_has(lists, v) <==> col_segment_has(candidates_view(a), br, c, v as int),
{
    lemma_candidates_view(a);
    assert(*lists[0] == a[br][c] && *lists[1] == a[br + 1][c] && *lists[2] == a[br + 2][c]);
    assert(in_grid(br, c) && in_grid(br + 1, c) && in_grid(br + 2, c));
}

/// What row `m` of the box at `(x, y)` schedules, read from its three rows.
proof fn lemma_row_line(
    a: [[Vec<i32>; 9]; 9],
    line: Seq<&Vec<i32>>,
    other_a: Seq<&Vec<i32>>,
    other_b: Seq<&Vec<i32>>,
    x: int,
    y: int,
    m: int,
    ma: int,
    mb: int,
    t: (usize, usize, i32),
)
    requires
        0 <= x < 3,
        0 <= y < 3,
        0 <= m < 3,
        0 <= ma < 3,
        0 <= mb < 3,
        m != ma && m != mb && ma != mb,
        is_row_segment(a, line, 3 * x + m, 3 * y),
        is_row_segment(a, other_a, 3 * x + ma, 3 * y),
        is_row_segment(a, other_b, 3 * x + mb, 3 * y),
    ensures
        (segment_has(line, t.2) && !segment_has(other_a, t.2) && !segment_has(other_b, t.2)
            && on_line_outside((3 * x + m) as usize, (3 * y) as usize, true, t)) <==> (t.0 < 9
            && t.1 < 9 && scheduled_by(
            candidates_view(a),
            x,
            y,
            m,
            t.0 as int,
            t.1 as int,
            t.2 as int,
        )),
{
    lemma_row_segment(a, line, 3 * x + m, 3 * y, t.2);
    lemma_row_segment(a, other_a, 3 * x + ma, 3 * y, t.2);
    lemma_row_segment(a, other_b, 3 * x + mb, 3 * y, t.2);
    assert(box_start(3 * x + m) == 3 * x);
}

/// What column `m` of the box at `(x, y)` schedules, read from its three columns.
proof fn lemma_col_line(
    a: [[Vec<i32>; 9]; 9],
    line: Seq<&Vec<i32>>,
    other_a: Seq<&Vec<i32>>,
    other_b: Seq<&Vec<i32>>,
    x: int,
    y: int,
    m: int,
    ma: int,
    mb: int,
    t: (usize, usize, i32),
)
    requires
        0 <= x < 3,
        0 <= y < 3,
        0 <= m < 3,
        0 <= ma < 3,
        0 <= mb < 3,
        m != ma && m != mb && ma != mb,
        is_col_segment(a, line, 3 * x, 3 * y + m),
        is_col_segment(a, other_a, 3 * x, 3 * y + ma),
        is_col_segment(a, other_b, 3 * x, 3 * y + mb),
    ensures
        (segment_has(line, t.2) && !segment_has(other_a, t.2) && !segment_has(other_b, t.2)
            && on_line_outside((3 * y + m) as usize, (3 * x) as usize, false, t)) <==> (t.0 < 9
            && t.1 < 9 && scheduled_by(
            candidates_view(a),
            x,
            y,
            m + 3,
            t.0 as int,
            t.1 as int,
            t.2 as int,
        )),
{
    lemma_col_segment(a, line, 3 * x, 3 * y + m, t.2);
    lemma_col_segment(a, other_a, 3 * x, 3 * y + ma, t.2);
    lemma_col_segment(a, other_b, 3 * x, 3 * y + mb, t.2);
    assert(box_start(3 * y + m) == 3 * y);
}

/// The removals scheduled so far are those of the line-groups before `(x, y, m)`.
pub open spec fn holds_scheduled(
    removable: Seq<(usize, usize, i32)>,
    cs: Candidates,
    x: int,
    y: int,
    m: int,
) -> bool {
    forall|t: (usize, usize, i32)|
        removable.contains(t) <==> t.0 < 9 && t.1 < 9 && scheduled_before(
            cs,
            x,
            y,
            m,
            t.0 as int,
            t.1 as int,
            t.2 as int,
        )
}

impl SudokuBoard {
    /// The candidate list of cell `(row, col)` without `possible_value`.
    /// Only digits 0..=9 are kept.
    pub fn remove_possible_value_from_cell(
        board: &SudokuBoard,
        possible_value: i32,
        row: usize,
        col: usize,
    ) -> (list: Vec<i32>)
        requires
            row < 9,
            col < 9,
        ensures
            ascending(list@),
            forall|d: i32|
                list@.contains(d) <==> 0 <= d < 10 && board.possible_solutions[row as int][col as int]@.contains(
                    d,
                ) && d != possible_value,
    {
        let mut new_vec: Vec<i32> = Vec::new();
        let mut value: i32 = 0;
        while value < 10
            invariant
                0 <= value <= 10,
                row < 9,
                col < 9,
                ascending(new_vec@),
                forall|d: i32|
                    new_vec@.contains(d) <==> 0 <= d < value
                        && board.possible_solutions[row as int][col as int]@.contains(d) && d
                        != possible_value,
            decreases 10 - value,
        {
            if list_contains(&board.possible_solutions[row][col], value) && value != possible_value {
                let ghost before = new_vec@;
                new_vec.push(value);
                proof {
                    assert(new_vec@ == before.push(value));
                    assert forall|d: i32|
                        new_vec@.contains(d) <==> 0 <= d < value + 1
                            && board.possible_solutions[row as int][col as int]@.contains(d) && d
                            != possible_value by {
                        if before.contains(d) {
                            let k = choose|k: int| 0 <= k < before.len() && before[k] == d;
                            assert(new_vec@[k] == d);
                        }
                        if d == value {
                            assert(new_vec@[before.len() as int] == d);
                        }
                    }
                    assert forall|i: int, j: int|
                        0 <= i < j < new_vec@.len() implies new_vec@[i] < new_vec@[j] by {
                        if j == before.len() {
                            assert(before.contains(before[i]));
                        }
                    }
                }
            }
            value += 1;
        }
        new_vec
    }

    /// The removals that the elimination pass schedules, all decided on the
    /// candidate lists as they stand: `(row, col, digit)` is listed exactly
    /// when the pass strikes `digit` from cell `(row, col)`.
    pub fn locked_candidate_removals(&self) -> (removable: Vec<(usize, usize, i32)>)
        ensures
            forall|t: (usize, usize, i32)|
                removable@.contains(t) <==> t.0 < 9 && t.1 < 9 && eliminated(
                    self.candidates(),
                    t.0 as int,
                    t.1 as int,
                    t.2 as int,
                ),
    {
        let ghost cs = self.candidates();
        let ghost a = self.possible_solutions;
        let mut removable: Vec<(usize, usize, i32)> = Vec::new();
        proof {
            assert forall|t: (usize, usize, i32)|
                !scheduled_before(cs, 0, 0, 0, t.0 as int, t.1 as int, t.2 as int) by {
                lemma_scheduled_step(cs, 0, 0, 0, t.0 as int, t.1 as int, t.2 as int);
            }
        }
        let mut cube_x: i32 = 0;
        while cube_x < 3
            invariant
                0 <= cube_x <= 3,
                cs == self.candidates(),
                a == self.possible_solutions,
                holds_scheduled(removable@, cs, cube_x as int, 0, 0),
            decreases 3 - cube_x,
        {
            let mut cube_y: i32 = 0;
            while cube_y < 3
                invariant
                    0 <= cube_x < 3,
                    0 <= cube_y <= 3,
                    cs == self.candidates(),
                    a == self.possible_solutions,
                    holds_scheduled(removable@, cs, cube_x as int, cube_y as int, 0),
                decreases 3 - cube_y,
            {
                let ghost x = cube_x as int;
                let ghost y = cube_y as int;
                let top_row = self.get_solution_row((cube_x, cube_y), RowGroup::RowTop);
                let middle_row = self.get_solution_row((cube_x, cube_y), RowGroup::RowMiddle);
                let bottom_row = self.get_solution_row((cube_x, cube_y), RowGroup::RowBottom);
                let left_col = self.get_solution_col((cube_x, cube_y), ColGroup::ColLeft);
                let mid_col = self.get_solution_col((cube_x, cube_y), ColGroup::ColMiddle);
                let right_col = self.get_solution_col((cube_x, cube_y), ColGroup::ColRight);
                let x0: usize = (cube_x * 3) as usize;
                let y0: usize = (cube_y * 3) as usize;
                proof {
                    assert(is_row_segment(a, top_row@, 3 * x, 3 * y));
                    assert(is_row_segment(a, middle_row@, 3 * x + 1, 3 * y));
                    assert(is_row_segment(a, bottom_row@, 3 * x + 2, 3 * y));
                    assert(is_col_segment(a, left_col@, 3 * x, 3 * y));
                    assert(is_col_segment(a, mid_col@, 3 * x, 3 * y + 1));
                    assert(is_col_segment(a, right_col@, 3 * x, 3 * y + 2));
                }

                schedule_line(&top_row, &middle_row, &bottom_row, x0, y0, true, &mut removable);
                proof {
                    assert forall|t: (usize, usize, i32)|
                        removable@.contains(t) <==> t.0 < 9 && t.1 < 9 && scheduled_before(
                            cs,
                            x,
                            y,
                            1,
                            t.0 as int,
                            t.1 as int,
                            t.2 as int,
                        ) by {
                        lemma_row_line(a, top_row@, middle_row@, bottom_row@, x, y, 0, 1, 2, t);
                        lemma_scheduled_step(cs, x, y, 0, t.0 as int, t.1 as int, t.2 as int);
                    }
                }
                schedule_line(&middle_row, &top_row, &bottom_row, x0 + 1, y0, true, &mut removable);
                proof {
                    assert forall|t: (usize, usize, i32)|
                        removable@.contains(t) <==> t.0 < 9 && t.1 < 9 && scheduled_before(
                            cs,
                            x,
                            y,
                            2,
                            t.0 as int,
                            t.1 as int,
                            t.2 as int,
                        ) by {
                        lemma_row_line(a, middle_row@, top_row@, bottom_row@, x, y, 1, 0, 2, t);
                        lemma_scheduled_step(cs, x, y, 1, t.0 as int, t.1 as int, t.2 as int);
                    }
                }
                schedule_line(&bottom_row, &top_row, &middle_row, x0 + 2, y0, true, &mut removable);
                proof {
                    assert forall|t: (usize, usize, i32)|
                        removable@.contains(t) <==> t.0 < 9 && t.1 < 9 && scheduled_before(
                            cs,
                            x,
                            y,
                            3,
                            t.0 as int,
                            t.1 as int,
                            t.2 as int,
                        ) by {
                        lemma_row_line(a, bottom_row@, top_row@, middle_row@, x, y, 2, 0, 1, t);
                        lemma_scheduled_step(cs, x, y, 2, t.0 as int, t.1 as int, t.2 as int);
                    }
                }
                schedule_line(&left_col, &mid_col, &right_col, y0, x0, false, &mut removable);
                proof {
                    assert forall|t: (usize, usize, i32)|
                        removable@.contains(t) <==> t.0 < 9 && t.1 < 9 && scheduled_before(
                            cs,
                            x,
                            y,
                            4,
                            t.0 as int,
                            t.1 as int,
                            t.2 as int,
                        ) by {
                        lemma_col_line(a, left_col@, mid_col@, right_col@, x, y, 0, 1, 2, t);
                        lemma_scheduled_step(cs, x, y, 3, t.0 as int, t.1 as int, t.2 as int);
                    }
                }
                schedule_line(&mid_col, &left_col, &right_col, y0 + 1, x0, false, &mut removable);
                proof {
                    assert forall|t: (usize, usize, i32)|
                        removable@.contains(t) <==> t.0 < 9 && t.1 < 9 && scheduled_before(
                            cs,
                            x,
                            y,
                            5,
                            t.0 as int,
                            t.1 as int,
                            t.2 as int,
                        ) by {
                        lemma_col_line(a, mid_col@, left_col@, right_col@, x, y, 1, 0, 2, t);
                        lemma_scheduled_step(cs, x, y, 4, t.0 as int, t.1 as int, t.2 as int);
                    }
                }
                schedule_line(&right_col, &left_col, &mid_col, y0 + 2, x0, false, &mut removable);
                proof {
                    assert forall|t: (usize, usize, i32)|
                        removable@.contains(t) <==> t.0 < 9 && t.1 < 9 && scheduled_before(
                            cs,
                            x,
                            y + 1,
                            0,
                            t.0 as int,
                            t.1 as int,
                            t.2 as int,
                        ) by {
                        lemma_col_line(a, right_col@, left_col@, mid_col@, x, y, 2, 0, 1, t);
                        lemma_scheduled_step(cs, x, y, 5, t.0 as int, t.1 as int, t.2 as int);
                    }
                }
                cube_y += 1;
            }
            proof {
                assert forall|t: (usize, usize, i32)|
                    removable@.contains(t) <==> t.0 < 9 && t.1 < 9 && scheduled_before(
                        cs,
                        cube_x + 1,
                        0,
                        0,
                        t.0 as int,
                        t.1 as int,
                        t.2 as int,
                    ) by {
                    lemma_scheduled_step(cs, cube_x as int, 0, 0, t.0 as int, t.1 as int, t.2 as int);
                }
            }
            cube_x += 1;
        }
        proof {
            assert forall|t: (usize, usize, i32)|
                removable@.contains(t) <==> t.0 < 9 && t.1 < 9 && eliminated(
                    cs,
                    t.0 as int,
                    t.1 as int,
                    t.2 as int,
                ) by {
                if t.0 < 9 && t.1 < 9 {
                    lemma_all_scheduled(cs, t.0 as int, t.1 as int, t.2 as int);
                }
            }
        }
        removable
    }

    /// The elimination pass: collects every removal on the candidate lists as
    /// they stand, then strikes them all.
    pub fn eliminate_locked_candidates(s_board: &mut SudokuBoard)
        requires
            all_ascending(old(s_board).possible_solutions),
            digit_lists(old(s_board).possible_solutions),
        ensures
            final(s_board).puzzle == old(s_board).puzzle,
            final(s_board).needs_solving == old(s_board).needs_solving,
            all_ascending(final(s_board).possible_solutions),
            digit_lists(final(s_board).possible_solutions),
            final(s_board).candidates() == eliminate(old(s_board).candidates()),
    {
        let removable_vals = s_board.locked_candidate_removals();
        let ghost a0 = s_board.possible_solutions;
        let ghost cs0 = s_board.candidates();
        let mut i: usize = 0;
        while i < removable_vals.len()
            invariant
                i <= removable_vals.len(),
                s_board.puzzle == old(s_board).puzzle,
                s_board.needs_solving == old(s_board).needs_solving,
                cs0 == candidates_view(a0),
                digit_lists(a0),
                all_ascending(s_board.possible_solutions),
                forall|t: (usize, usize, i32)|
                    removable_vals@.contains(t) <==> t.0 < 9 && t.1 < 9 && eliminated(
                        cs0,
                        t.0 as int,
                        t.1 as int,
                        t.2 as int,
                    ),
                forall|r: int, c: int, d: i32|
                    in_grid(r, c) ==> (#[trigger] s_board.possible_solutions[r][c]@.contains(d)
                        <==> a0[r][c]@.contains(d) && !removable_vals@.take(i as int).contains(
                        (r as usize, c as usize, d),
                    )),
            decreases removable_vals.len() - i,
        {
            let entry = removable_vals[i];
            let row: usize = entry.0;
            let col: usize = entry.1;
            let ghost lists = s_board.possible_solutions;
            proof {
                assert(removable_vals@.contains(entry));
            }
            let list = SudokuBoard::remove_possible_value_from_cell(s_board, entry.2, row, col);
            s_board.possible_solutions[row][col] = list;
            proof {
                let shorter = removable_vals@.take(i as int);
                let longer = removable_vals@.take(i + 1);
                assert forall|t: (usize, usize, i32)|
                    longer.contains(t) <==> shorter.contains(t) || t == entry by {
                    if shorter.contains(t) {
                        let k = choose|k: int| 0 <= k < shorter.len() && shorter[k] == t;
                        assert(longer[k] == t);
                    }
                    if t == entry {
                        assert(longer[i as int] == t);
                    }
                    if longer.contains(t) {
                        let k = choose|k: int| 0 <= k < longer.len() && longer[k] == t;
                        if k < i {
                            assert(shorter[k] == t);
                        }
                    }
                }
                assert forall|r: int, c: int| in_grid(r, c) && !(r == row && c == col) implies (
                #[trigger] s_board.possible_solutions[r][c]) == lists[r][c] by {}
                assert forall|r: int, c: int, d: i32| in_grid(r, c) implies (
                #[trigger] s_board.possible_solutions[r][c]@.contains(d) <==> a0[r][c]@.contains(d)
                    && !longer.contains((r as usize, c as usize, d))) by {
                    if r == row && c == col {
                        assert(lists[r][c]@.contains(d) <==> a0[r][c]@.contains(d)
                            && !shorter.contains((r as usize, c as usize, d)));
                    } else {
                        assert(s_board.possible_solutions[r][c] == lists[r][c]);
                        assert(lists[r][c]@.contains(d) <==> a0[r][c]@.contains(d)
                            && !shorter.contains((r as usize, c as usize, d)));
                    }
                }
            }
            i += 1;
        }
        proof {
            assert(removable_vals@.take(i as int) == removable_vals@);
            let a1 = s_board.possible_solutions;
            lemma_candidates_view(a0);
            lemma_candidates_view(a1);
            lemma_eliminate(cs0);
            assert forall|r: int, c: int, d: int| in_grid(r, c) implies (#[trigger] candidates_view(
                a1,
            )[r][c].contains(d) <==> eliminate(cs0)[r][c].contains(d)) by {
                if i32::MIN <= d <= i32::MAX {
                    let t = (r as usize, c as usize, d as i32);
                    assert(a1[r][c]@.contains(d as i32) <==> a0[r][c]@.contains(d as i32)
                        && !removable_vals@.contains(t));
                    assert(cs0[r][c].contains(d) <==> a0[r][c]@.contains(d as i32));
                }
            }
            lemma_candidates_ext(candidates_view(a1), eliminate(cs0));
        }
    }
}

} // verus!
