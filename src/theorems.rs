use vstd::prelude::*;
use crate::cell::{Cell, index_of, is_digit, lemma_sorted_no_dup, lemma_sorted_set_eq};
use crate::engine::{lemma_total_bound, count_same, in_family, lemma_count_same_same, lemma_singles_same, naked, pairs_done, singles, singles_done, strip, sweep, total};
use crate::parse::{cell_matches, digit_of, given_char};
use crate::puzzle::{covers, box_index, box_seq, col_index, col_seq, family_ok, row_index, lemma_boxes_ok, lemma_cols_ok, lemma_rows_ok, row_seq};
use crate::render::{glyph, picture_line};

verus! {


/// Board `b2` came from `b1` by removals only, and every cell that was
/// resolved in `b1` still holds the same digit.
pub open spec fn shrunk(b1: Seq<Cell>, b2: Seq<Cell>) -> bool {
    &&& b1.len() == 81 && b2.len() == 81
    &&& forall|i: int| 0 <= i < 81 ==> (#[trigger] b2[i]).cands().subset_of(b1[i].cands())
    &&& forall|i: int| 0 <= i < 81 && b1[i].resolved() ==> (#[trigger] b2[i]).options@ == b1[i].options@
}

/// Shrinking composes: any sequence of passes only removes candidates and
/// never changes a resolved cell.
pub proof fn shrunk_trans(b1: Seq<Cell>, b2: Seq<Cell>, b3: Seq<Cell>)
    requires
        shrunk(b1, b2),
        shrunk(b2, b3),
    ensures
        shrunk(b1, b3),
{
    assert forall|i: int| 0 <= i < 81 implies (#[trigger] b3[i]).cands().subset_of(b1[i].cands()) by {
        assert(b2[i].cands().subset_of(b1[i].cands()));
    }
    assert forall|i: int| 0 <= i < 81 && b1[i].resolved() implies (#[trigger] b3[i]).options@ == b1[i].options@ by {
        assert(b2[i].options@ == b1[i].options@);
    }
}

pub proof fn shrunk_refl(b: Seq<Cell>)
    requires
        b.len() == 81,
    ensures
        shrunk(b, b),
{
}

/// A board where every cell holds at least one candidate has at least 81.
pub proof fn total_lower(b: Seq<Cell>)
    requires
        forall|i: int| 0 <= i < b.len() ==> (#[trigger] b[i]).options@.len() >= 1,
    ensures
        total(b) >= b.len(),
    decreases b.len(),
{
    if b.len() > 0 {
        total_lower(b.drop_last());
    }
}


/// Every cell of the board is well formed.
pub open spec fn board_wf(b: Seq<Cell>) -> bool {
    b.len() == 81 && forall|i: int| 0 <= i < 81 ==> (#[trigger] b[i]).wf()
}

/// The two boards hold the same candidates in every cell.
pub open spec fn same_board(b1: Seq<Cell>, b2: Seq<Cell>) -> bool {
    b1.len() == 81 && b2.len() == 81 && forall|i: int| 0 <= i < 81 ==> (#[trigger] b1[i]).options@ == b2[i].options@
}

/// The two families list the same groups, in the same order.
pub open spec fn same_groups(f1: Seq<Vec<usize>>, f2: Seq<Vec<usize>>) -> bool {
    f1.len() == f2.len() && forall|g: int| 0 <= g < f1.len() ==> (#[trigger] f1[g])@ == f2[g]@
}

pub open spec fn is_rows(f: Seq<Vec<usize>>) -> bool {
    f.len() == 9 && forall|g: int| 0 <= g < 9 ==> (#[trigger] f[g])@ == row_seq(g)
}

pub open spec fn is_cols(f: Seq<Vec<usize>>) -> bool {
    f.len() == 9 && forall|g: int| 0 <= g < 9 ==> (#[trigger] f[g])@ == col_seq(g)
}

pub open spec fn is_boxes(f: Seq<Vec<usize>>) -> bool {
    f.len() == 9 && forall|g: int| 0 <= g < 9 ==> (#[trigger] f[g])@ == box_seq(g)
}

/// No naked-subset or naked-single pass over the rows, the columns or the
/// boxes can remove a candidate from `b`.
pub open spec fn stable(b: Seq<Cell>) -> bool {
    &&& forall|f: Seq<Vec<usize>>, b2: Seq<Cell>|
        (is_rows(f) || is_cols(f) || is_boxes(f)) && board_wf(b2) && #[trigger] pairs_done(b, b2, f)
            ==> total(b2) == total(b)
    &&& forall|f: Seq<Vec<usize>>, b2: Seq<Cell>|
        (is_rows(f) || is_cols(f) || is_boxes(f)) && board_wf(b2) && #[trigger] singles_done(b, b2, f)
            ==> total(b2) == total(b)
}

proof fn lemma_total_le(b1: Seq<Cell>, b2: Seq<Cell>)
    requires
        b1.len() == b2.len(),
        forall|i: int| 0 <= i < b1.len() ==> (#[trigger] b2[i]).options@.len() <= b1[i].options@.len(),
    ensures
        total(b2) <= total(b1),
        total(b2) == total(b1) ==> forall|i: int| 0 <= i < b1.len() ==> (#[trigger] b2[i]).options@.len() == b1[i].options@.len(),
    decreases b1.len(),
{
    if b1.len() > 0 {
        let n = b1.len() - 1;
        assert(b2.last().options@.len() <= b1.last().options@.len()) by {
            assert(b2[n].options@.len() <= b1[n].options@.len());
        }
        lemma_total_le(b1.drop_last(), b2.drop_last());
        if total(b2) == total(b1) {
            assert forall|i: int| 0 <= i < b1.len() implies (#[trigger] b2[i]).options@.len() == b1[i].options@.len() by {
                if i < n {
                    assert(b2.drop_last()[i] == b2[i]);
                    assert(b1.drop_last()[i] == b1[i]);
                }
            }
        }
    }
}

/// A pass that removed nothing left every cell as it was.
pub proof fn pass_noop(b1: Seq<Cell>, b2: Seq<Cell>)
    requires
        board_wf(b1),
        board_wf(b2),
        shrunk(b1, b2),
        total(b2) == total(b1),
    ensures
        same_board(b1, b2),
{
    assert forall|i: int| 0 <= i < 81 implies (#[trigger] b2[i]).options@.len() <= b1[i].options@.len() by {
        assert(b1[i].wf() && b2[i].wf());
        lemma_sorted_no_dup(b1[i].options@);
        lemma_sorted_no_dup(b2[i].options@);
        vstd::set_lib::lemma_len_subset(b2[i].cands(), b1[i].cands());
    }
    lemma_total_le(b1, b2);
    assert forall|i: int| 0 <= i < 81 implies (#[trigger] b1[i]).options@ == b2[i].options@ by {
        assert(b1[i].wf() && b2[i].wf());
        assert(b2[i].options@.len() == b1[i].options@.len());
        lemma_sorted_no_dup(b1[i].options@);
        lemma_sorted_no_dup(b2[i].options@);
        vstd::set_lib::lemma_subset_equality(b2[i].cands(), b1[i].cands());
        lemma_sorted_set_eq(b1[i].options@, b2[i].options@);
    }
}

proof fn lemma_sweep_same(b1: Seq<Cell>, b2: Seq<Cell>, grp: Seq<usize>, own: Set<u8>, t: Set<u8>, n: int)
    requires
        grp.len() == 9,
        0 <= n <= 9,
        forall|k: int| 0 <= k < 9 ==> (#[trigger] b1[grp[k] as int]).options@ == b2[grp[k] as int].options@,
    ensures
        sweep(b1, grp, own, t, n) == sweep(b2, grp, own, t, n),
    decreases n,
{
    if n > 0 {
        lemma_sweep_same(b1, b2, grp, own, t, n - 1);
        let c = b1[grp[n - 1] as int];
        assert(c.options@ == b2[grp[n - 1] as int].options@);
        lemma_count_same_same(b1, b2, grp, c.cands(), 9);
    }
}

/// Boards with the same candidates have the same naked-subset pass result.
proof fn lemma_pairs_done_congr(b1: Seq<Cell>, b2: Seq<Cell>, b3: Seq<Cell>, f1: Seq<Vec<usize>>, f2: Seq<Vec<usize>>)
    requires
        same_board(b1, b2),
        family_ok(f1),
        same_groups(f1, f2),
        pairs_done(b2, b3, f2),
    ensures
        pairs_done(b1, b3, f1),
{
    assert forall|g: int, k: int| 0 <= g < f1.len() && 0 <= k < 9 implies (#[trigger] b3[f1[g]@[k] as int]).cands()
        == sweep(b1, f1[g]@, b1[f1[g]@[k] as int].cands(), b1[f1[g]@[k] as int].cands(), 9) by {
        assert(f1[g]@ == f2[g]@);
        assert forall|k2: int| 0 <= k2 < 9 implies (#[trigger] b1[f1[g]@[k2] as int]).options@ == b2[f1[g]@[k2] as int].options@ by {
            assert(f1[g]@[k2] < 81);
        }
        assert(f1[g]@[k] < 81);
        assert(b3[f2[g]@[k] as int] == b3[f1[g]@[k] as int]);
        lemma_sweep_same(b1, b2, f1[g]@, b1[f1[g]@[k] as int].cands(), b1[f1[g]@[k] as int].cands(), 9);
    }
    assert forall|i: int| 0 <= i < b1.len() && !in_family(f1, i) implies (#[trigger] b3[i]).options@ == b1[i].options@ by {
        if in_family(f2, i) {
            let (g, k) = choose|g: int, k: int| 0 <= g < f2.len() && 0 <= k < 9 && #[trigger] f2[g]@[k] == i;
            assert(f1[g]@ == f2[g]@);
            assert(f1[g]@[k] == i);
        }
    }
}

/// Boards with the same candidates have the same naked-single pass result.
proof fn lemma_singles_done_congr(b1: Seq<Cell>, b2: Seq<Cell>, b3: Seq<Cell>, f1: Seq<Vec<usize>>, f2: Seq<Vec<usize>>)
    requires
        same_board(b1, b2),
        family_ok(f1),
        same_groups(f1, f2),
        singles_done(b2, b3, f2),
    ensures
        singles_done(b1, b3, f1),
{
    assert forall|g: int, k: int| 0 <= g < f1.len() && 0 <= k < 9 implies (#[trigger] b3[f1[g]@[k] as int]).cands()
        == strip(b1[f1[g]@[k] as int].cands(), singles(b1, f1[g]@, 9)) by {
        assert(f1[g]@ == f2[g]@);
        assert forall|k2: int| 0 <= k2 < 9 implies 0 <= #[trigger] f1[g]@[k2] < b1.len() && f1[g]@[k2] < b2.len() by {
            assert(f1[g]@[k2] < 81);
        }
        assert forall|k2: int| 0 <= k2 < 9 implies (#[trigger] b1[f1[g]@[k2] as int]).options@ == b2[f1[g]@[k2] as int].options@ by {
            assert(f1[g]@[k2] < 81);
        }
        assert(f1[g]@[k] < 81);
        assert(b3[f2[g]@[k] as int] == b3[f1[g]@[k] as int]);
        lemma_singles_same(b1, b2, f1[g]@, 9);
    }
    assert forall|i: int| 0 <= i < b1.len() && !in_family(f1, i) implies (#[trigger] b3[i]).options@ == b1[i].options@ by {
        if in_family(f2, i) {
            let (g, k) = choose|g: int, k: int| 0 <= g < f2.len() && 0 <= k < 9 && #[trigger] f2[g]@[k] == i;
            assert(f1[g]@ == f2[g]@);
            assert(f1[g]@[k] == i);
        }
    }
}

/// Idempotence of the naked-subset pass: when a pass over a family removed
/// nothing, a further pass over the same groups removes nothing either.
pub proof fn pairs_idempotent(b1: Seq<Cell>, b2: Seq<Cell>, b3: Seq<Cell>, f1: Seq<Vec<usize>>, f2: Seq<Vec<usize>>)
    requires
        board_wf(b1),
        board_wf(b2),
        board_wf(b3),
        family_ok(f1),
        same_groups(f1, f2),
        pairs_done(b1, b2, f1),
        total(b2) == total(b1),
        pairs_done(b2, b3, f2),
    ensures
        total(b3) == total(b2),
{
    pairs_shrink(b1, b2, f1);
    pass_noop(b1, b2);
    lemma_pairs_done_congr(b1, b2, b3, f1, f2);
    pairs_shrink(b1, b3, f1);
    pass_noop_same(b1, b2, b3);
}

/// Idempotence of the naked-single pass: when a pass over a family removed
/// nothing, a further pass over the same groups removes nothing either.
pub proof fn singles_idempotent(b1: Seq<Cell>, b2: Seq<Cell>, b3: Seq<Cell>, f1: Seq<Vec<usize>>, f2: Seq<Vec<usize>>)
    requires
        board_wf(b1),
        board_wf(b2),
        board_wf(b3),
        family_ok(f1),
        same_groups(f1, f2),
        singles_done(b1, b2, f1),
        total(b2) == total(b1),
        singles_done(b2, b3, f2),
    ensures
        total(b3) == total(b2),
{
    singles_shrink(b1, b2, f1);
    pass_noop(b1, b2);
    lemma_singles_done_congr(b1, b2, b3, f1, f2);
    singles_shrink(b1, b3, f1);
    pass_noop_same(b1, b2, b3);
}

/// Two pass results from one board agree, cell by cell, in their totals.
proof fn pass_noop_same(b1: Seq<Cell>, b2: Seq<Cell>, b3: Seq<Cell>)
    requires
        board_wf(b1),
        board_wf(b2),
        board_wf(b3),
        same_board(b1, b2),
        forall|i: int| 0 <= i < 81 ==> (#[trigger] b3[i]).cands() == b2[i].cands(),
    ensures
        total(b3) == total(b2),
{
    assert forall|i: int| 0 <= i < 81 implies (#[trigger] b3[i]).options@.len() <= b2[i].options@.len()
        && b2[i].options@.len() <= b3[i].options@.len() by {
        assert(b2[i].wf() && b3[i].wf());
        lemma_sorted_no_dup(b2[i].options@);
        lemma_sorted_no_dup(b3[i].options@);
    }
    lemma_total_le(b2, b3);
    lemma_total_le(b3, b2);
}


proof fn lemma_family_views(f: Seq<Vec<usize>>)
    requires
        is_rows(f) || is_cols(f) || is_boxes(f),
    ensures
        family_ok(f),
{
    if is_rows(f) {
        lemma_rows_ok(f);
    } else if is_cols(f) {
        lemma_cols_ok(f);
    } else {
        lemma_boxes_ok(f);
    }
}

/// Idempotence at the fixed point: after a round (subsets then singles, over
/// rows, columns and boxes) that removed nothing, no further pass of any kind
/// over any of the three families removes anything, so neither does another
/// round.
pub proof fn quiet_round_is_stable(
    p0: Seq<Cell>,
    p1: Seq<Cell>,
    p2: Seq<Cell>,
    p3: Seq<Cell>,
    p4: Seq<Cell>,
    p5: Seq<Cell>,
    p6: Seq<Cell>,
    rows: Seq<Vec<usize>>,
    cols: Seq<Vec<usize>>,
    boxes: Seq<Vec<usize>>,
)
    requires
        board_wf(p0) && board_wf(p1) && board_wf(p2) && board_wf(p3) && board_wf(p4) && board_wf(p5) && board_wf(p6),
        is_rows(rows),
        is_cols(cols),
        is_boxes(boxes),
        pairs_done(p0, p1, rows),
        singles_done(p1, p2, rows),
        pairs_done(p2, p3, cols),
        singles_done(p3, p4, cols),
        pairs_done(p4, p5, boxes),
        singles_done(p5, p6, boxes),
        total(p6) == total(p0),
    ensures
        stable(p6),
{
    lemma_rows_ok(rows);
    lemma_cols_ok(cols);
    lemma_boxes_ok(boxes);
    pairs_shrink(p0, p1, rows);
    singles_shrink(p1, p2, rows);
    pairs_shrink(p2, p3, cols);
    singles_shrink(p3, p4, cols);
    pairs_shrink(p4, p5, boxes);
    singles_shrink(p5, p6, boxes);
    lemma_total_bound_shrunk(p0, p1);
    lemma_total_bound_shrunk(p1, p2);
    lemma_total_bound_shrunk(p2, p3);
    lemma_total_bound_shrunk(p3, p4);
    lemma_total_bound_shrunk(p4, p5);
    lemma_total_bound_shrunk(p5, p6);
    pass_noop(p0, p1);
    pass_noop(p1, p2);
    pass_noop(p2, p3);
    pass_noop(p3, p4);
    pass_noop(p4, p5);
    pass_noop(p5, p6);
    assert forall|f: Seq<Vec<usize>>, b: Seq<Cell>|
        (is_rows(f) || is_cols(f) || is_boxes(f)) && board_wf(b) && #[trigger] pairs_done(p6, b, f)
            implies total(b) == total(p6) by {
        lemma_family_views(f);
        if is_rows(f) {
            assert(same_groups(rows, f));
            lemma_pairs_done_congr(p1, p6, b, rows, f);
            pairs_idempotent(p0, p1, b, rows, rows);
        } else if is_cols(f) {
            assert(same_groups(cols, f));
            lemma_pairs_done_congr(p3, p6, b, cols, f);
            pairs_idempotent(p2, p3, b, cols, cols);
        } else {
            assert(same_groups(boxes, f));
            lemma_pairs_done_congr(p5, p6, b, boxes, f);
            pairs_idempotent(p4, p5, b, boxes, boxes);
        }
    }
    assert forall|f: Seq<Vec<usize>>, b: Seq<Cell>|
        (is_rows(f) || is_cols(f) || is_boxes(f)) && board_wf(b) && #[trigger] singles_done(p6, b, f)
            implies total(b) == total(p6) by {
        lemma_family_views(f);
        if is_rows(f) {
            assert(same_groups(rows, f));
            lemma_singles_done_congr(p2, p6, b, rows, f);
            singles_idempotent(p1, p2, b, rows, rows);
        } else if is_cols(f) {
            assert(same_groups(cols, f));
            lemma_singles_done_congr(p4, p6, b, cols, f);
            singles_idempotent(p3, p4, b, cols, cols);
        } else {
            assert(same_groups(boxes, f));
            lemma_singles_done_congr(p6, p6, b, boxes, f);
            singles_idempotent(p5, p6, b, boxes, boxes);
        }
    }
}

proof fn lemma_total_bound_shrunk(b1: Seq<Cell>, b2: Seq<Cell>)
    requires
        board_wf(b1),
        board_wf(b2),
        shrunk(b1, b2),
    ensures
        total(b2) <= total(b1),
{
    assert forall|i: int| 0 <= i < 81 implies (#[trigger] b2[i]).options@.len() <= b1[i].options@.len() by {
        assert(b1[i].wf() && b2[i].wf());
        lemma_sorted_no_dup(b1[i].options@);
        lemma_sorted_no_dup(b2[i].options@);
        vstd::set_lib::lemma_len_subset(b2[i].cands(), b1[i].cands());
    }
    lemma_total_le(b1, b2);
}


/// `sol` gives every cell one of its candidates.
pub open spec fn fits(b: Seq<Cell>, sol: Seq<u8>) -> bool {
    &&& sol.len() == 81
    &&& b.len() == 81
    &&& forall|i: int| 0 <= i < 81 ==> (#[trigger] b[i]).cands().contains(sol[i])
}

/// No digit of `sol` repeats inside a group of `f`.
pub open spec fn distinct_in(f: Seq<Vec<usize>>, sol: Seq<u8>) -> bool {
    forall|g: int, k1: int, k2: int|
        0 <= g < f.len() && 0 <= k1 < 9 && 0 <= k2 < 9 && k1 != k2
            ==> sol[#[trigger] f[g]@[k1] as int] != sol[#[trigger] f[g]@[k2] as int]
}


/// No digit repeats in any row, column or box of the assignment.
pub open spec fn layout_ok(sol: Seq<u8>) -> bool {
    &&& sol.len() == 81
    &&& forall|g: int, k1: int, k2: int| 0 <= g < 9 && 0 <= k1 < 9 && 0 <= k2 < 9 && k1 != k2
        ==> sol[#[trigger] row_index(g, k1)] != sol[#[trigger] row_index(g, k2)]
    &&& forall|g: int, k1: int, k2: int| 0 <= g < 9 && 0 <= k1 < 9 && 0 <= k2 < 9 && k1 != k2
        ==> sol[#[trigger] col_index(g, k1)] != sol[#[trigger] col_index(g, k2)]
    &&& forall|g: int, k1: int, k2: int| 0 <= g < 9 && 0 <= k1 < 9 && 0 <= k2 < 9 && k1 != k2
        ==> sol[#[trigger] box_index(g, k1)] != sol[#[trigger] box_index(g, k2)]
}

/// Every solution of `b0` is still a solution of `b`.
pub open spec fn keeps_solutions(b0: Seq<Cell>, b: Seq<Cell>) -> bool {
    forall|sol: Seq<u8>| fits(b0, sol) && layout_ok(sol) ==> #[trigger] fits(b, sol)
}

pub proof fn keeps_solutions_refl(b: Seq<Cell>)
    ensures
        keeps_solutions(b, b),
{
}

/// A pass over the rows, the columns or the boxes that keeps every
/// assignment without repeats in that family keeps every solution.
pub proof fn keeps_solutions_step(b0: Seq<Cell>, b1: Seq<Cell>, b2: Seq<Cell>, f: Seq<Vec<usize>>)
    requires
        keeps_solutions(b0, b1),
        is_rows(f) || is_cols(f) || is_boxes(f),
        forall|sol: Seq<u8>| fits(b1, sol) && distinct_in(f, sol) ==> #[trigger] fits(b2, sol),
    ensures
        keeps_solutions(b0, b2),
{
    assert forall|sol: Seq<u8>| fits(b0, sol) && layout_ok(sol) implies #[trigger] fits(b2, sol) by {
        assert(fits(b1, sol));
        assert forall|g: int, k1: int, k2: int| 0 <= g < f.len() && 0 <= k1 < 9 && 0 <= k2 < 9 && k1 != k2
            implies sol[#[trigger] f[g]@[k1] as int] != sol[#[trigger] f[g]@[k2] as int] by {
            if is_rows(f) {
                assert(f[g]@ == row_seq(g));
                assert(sol[row_index(g, k1)] != sol[row_index(g, k2)]);
            } else if is_cols(f) {
                assert(f[g]@ == col_seq(g));
                assert(sol[col_index(g, k1)] != sol[col_index(g, k2)]);
            } else {
                assert(f[g]@ == box_seq(g));
                assert(0 <= (g / 3) * 3 + k1 / 3 < 9);
                assert(0 <= (g % 3) * 3 + k1 % 3 < 9);
                assert(0 <= (g / 3) * 3 + k2 / 3 < 9);
                assert(0 <= (g % 3) * 3 + k2 % 3 < 9);
                assert(sol[box_index(g, k1)] != sol[box_index(g, k2)]);
            }
        }
    }
}


/// Family `f` is the rows (`kind` 0), the columns (1) or the boxes (2).
pub open spec fn is_family(f: Seq<Vec<usize>>, kind: int) -> bool {
    (kind == 0 && is_rows(f)) || (kind == 1 && is_cols(f)) || (kind == 2 && is_boxes(f))
}

/// `b2` is `b1` after a naked-subset pass (`subsets`) or a naked-single pass
/// over the family of `kind`.
pub open spec fn pass_step(b1: Seq<Cell>, b2: Seq<Cell>, kind: int, subsets: bool) -> bool {
    forall|f: Seq<Vec<usize>>| #[trigger] is_family(f, kind) ==> if subsets {
        pairs_done(b1, b2, f)
    } else {
        singles_done(b1, b2, f)
    }
}

/// `bs[0]` to `bs[6]` are the boards of one round: subsets then singles,
/// over the rows, then the columns, then the boxes.
pub open spec fn round_steps(bs: Seq<Seq<Cell>>) -> bool {
    &&& bs.len() == 7
    &&& forall|j: int| 0 <= j < 7 ==> board_wf(#[trigger] bs[j])
    &&& pass_step(bs[0], bs[1], 0, true)
    &&& pass_step(bs[1], bs[2], 0, false)
    &&& pass_step(bs[2], bs[3], 1, true)
    &&& pass_step(bs[3], bs[4], 1, false)
    &&& pass_step(bs[4], bs[5], 2, true)
    &&& pass_step(bs[5], bs[6], 2, false)
}

/// `b6` is `b0` after one full round.
pub open spec fn round_done(b0: Seq<Cell>, b6: Seq<Cell>) -> bool {
    exists|bs: Seq<Seq<Cell>>| #[trigger] round_steps(bs) && bs[0] == b0 && bs[6] == b6
}

/// Round `j` of the history took `hist[j]` to `hist[j + 1]`.
pub open spec fn history_step(hist: Seq<Seq<Cell>>, j: int) -> bool {
    round_done(hist[j], hist[j + 1])
}

/// `b` is reached from `b0` by the rounds of `hist`, the last of which removed
/// nothing.
pub open spec fn rounds_to_fixed_point(hist: Seq<Seq<Cell>>, b0: Seq<Cell>, b: Seq<Cell>) -> bool {
    &&& hist.len() >= 2
    &&& hist[0] == b0
    &&& hist.last() == b
    &&& forall|j: int| 0 <= j < hist.len() - 1 ==> #[trigger] history_step(hist, j)
    &&& total(hist[hist.len() - 2]) == total(b)
}

/// A pass over one concrete list of the rows, columns or boxes is a pass over
/// that family.
pub proof fn pass_step_from(b1: Seq<Cell>, b2: Seq<Cell>, kind: int, subsets: bool, fam: Seq<Vec<usize>>)
    requires
        board_wf(b1),
        is_family(fam, kind),
        family_ok(fam),
        subsets ==> pairs_done(b1, b2, fam),
        !subsets ==> singles_done(b1, b2, fam),
    ensures
        pass_step(b1, b2, kind, subsets),
{
    assert forall|f: Seq<Vec<usize>>| #[trigger] is_family(f, kind) implies if subsets {
        pairs_done(b1, b2, f)
    } else {
        singles_done(b1, b2, f)
    } by {
        lemma_family_views(f);
        assert(same_groups(f, fam));
        if subsets {
            lemma_pairs_done_congr(b1, b1, b2, f, fam);
        } else {
            lemma_singles_done_congr(b1, b1, b2, f, fam);
        }
    }
}

pub proof fn round_done_from(p0: Seq<Cell>, p1: Seq<Cell>, p2: Seq<Cell>, p3: Seq<Cell>, p4: Seq<Cell>, p5: Seq<Cell>, p6: Seq<Cell>)
    requires
        board_wf(p0) && board_wf(p1) && board_wf(p2) && board_wf(p3) && board_wf(p4) && board_wf(p5) && board_wf(p6),
        pass_step(p0, p1, 0, true),
        pass_step(p1, p2, 0, false),
        pass_step(p2, p3, 1, true),
        pass_step(p3, p4, 1, false),
        pass_step(p4, p5, 2, true),
        pass_step(p5, p6, 2, false),
    ensures
        round_done(p0, p6),
{
    let bs = seq![p0, p1, p2, p3, p4, p5, p6];
    assert(bs[0] == p0 && bs[1] == p1 && bs[2] == p2 && bs[3] == p3 && bs[4] == p4 && bs[5] == p5 && bs[6] == p6);
    assert(round_steps(bs));
}


/// A naked-single pass keeps every group of its family covering all nine
/// digits: it only removes the digit of a resolved cell, which keeps it.
pub proof fn singles_keep_cover(b1: Seq<Cell>, b2: Seq<Cell>, f: Seq<Vec<usize>>, g: int)
    requires
        board_wf(b1),
        board_wf(b2),
        family_ok(f),
        singles_done(b1, b2, f),
        0 <= g < f.len(),
        covers(b1, f[g]@),
    ensures
        covers(b2, f[g]@),
{
    let grp = f[g]@;
    singles_shrink(b1, b2, f);
    assert forall|d: u8| #[trigger] is_digit(d) implies exists|k: int| 0 <= k < grp.len() && (#[trigger] b2[grp[k] as int]).cands().contains(d) by {
        let k = choose|k: int| 0 <= k < grp.len() && (#[trigger] b1[grp[k] as int]).cands().contains(d);
        assert(f[g]@[k] < 81);
        let vals = singles(b1, grp, 9);
        lemma_singles_members(b1, grp, 9, d);
        if vals.contains(d) {
            let p = choose|p: int| 0 <= p < 9 && (#[trigger] b1[grp[p] as int]).options@ == seq![d];
            assert(f[g]@[p] < 81);
            assert(b1[grp[p] as int].resolved());
            assert(b2[grp[p] as int].options@ == seq![d]);
            assert(b2[grp[p] as int].options@[0] == d);
            assert(b2[grp[p] as int].cands().contains(d));
        } else {
            lemma_strip_keeps(b1[grp[k] as int].cands(), vals, d);
            assert(b2[f[g]@[k] as int].cands().contains(d));
        }
    }
}

/// Over any sequence of passes that leaves no cell empty, at most `81 * 8`
/// candidates are removed.
pub proof fn removal_bound(b0: Seq<Cell>, b: Seq<Cell>)
    requires
        board_wf(b0),
        b.len() == 81,
        forall|i: int| 0 <= i < 81 ==> (#[trigger] b[i]).options@.len() >= 1,
    ensures
        total(b0) - total(b) <= 648,
{
    lemma_total_bound(b0);
    total_lower(b);
}

proof fn lemma_strip_keeps(t: Set<u8>, vals: Seq<u8>, x: u8)
    requires
        t.contains(x),
        !vals.contains(x),
    ensures
        strip(t, vals).contains(x),
    decreases vals.len(),
{
    if vals.len() > 0 {
        let init = vals.drop_last();
        assert(!init.contains(x)) by {
            if init.contains(x) {
                let j = choose|j: int| 0 <= j < init.len() && init[j] == x;
                assert(vals[j] == x);
            }
        }
        lemma_strip_keeps(t, init, x);
        assert(vals[vals.len() - 1] != x);
    }
}

proof fn lemma_sweep_keeps(b: Seq<Cell>, grp: Seq<usize>, own: Set<u8>, t: Set<u8>, n: int, x: u8)
    requires
        t.contains(x),
        forall|p: int| 0 <= p < n && #[trigger] naked(b, grp, p) && b[grp[p] as int].cands() != own
            ==> !b[grp[p] as int].cands().contains(x),
    ensures
        sweep(b, grp, own, t, n).contains(x),
    decreases n,
{
    if n > 0 {
        lemma_sweep_keeps(b, grp, own, t, n - 1, x);
    }
}

/// The members among the first `n` of `grp` whose candidates are exactly `s`.
spec fn same_members(b: Seq<Cell>, grp: Seq<usize>, s: Set<u8>, n: int) -> Set<int> {
    Set::new(|j: int| 0 <= j < n && b[grp[j] as int].cands() == s)
}

proof fn lemma_same_members_len(b: Seq<Cell>, grp: Seq<usize>, s: Set<u8>, n: int)
    requires
        0 <= n,
    ensures
        same_members(b, grp, s, n).finite(),
        same_members(b, grp, s, n).len() == count_same(b, grp, s, n),
    decreases n,
{
    if n == 0 {
        assert(same_members(b, grp, s, n) =~= Set::<int>::empty());
    } else {
        lemma_same_members_len(b, grp, s, n - 1);
        let prev = same_members(b, grp, s, n - 1);
        if b[grp[n - 1] as int].cands() == s {
            assert(same_members(b, grp, s, n) =~= prev.insert(n - 1));
            assert(!prev.contains(n - 1));
        } else {
            assert(same_members(b, grp, s, n) =~= prev);
        }
    }
}

/// In a naked subset of `k` digits held by `k` cells, a solution places every
/// one of those digits in one of those cells.
proof fn lemma_naked_cover(b: Seq<Cell>, grp: Seq<usize>, p: int, sol: Seq<u8>)
    requires
        grp.len() == 9,
        b.len() == 81,
        sol.len() == 81,
        0 <= p < 9,
        naked(b, grp, p),
        forall|j: int| 0 <= j < 9 ==> #[trigger] grp[j] < 81,
        forall|j: int| 0 <= j < 9 ==> (#[trigger] b[grp[j] as int]).wf() && b[grp[j] as int].cands().contains(sol[grp[j] as int]),
        forall|j1: int, j2: int| 0 <= j1 < 9 && 0 <= j2 < 9 && j1 != j2 ==> sol[#[trigger] grp[j1] as int] != sol[#[trigger] grp[j2] as int],
    ensures
        forall|x: u8| #[trigger] b[grp[p] as int].cands().contains(x) ==> exists|j: int| 0 <= j < 9
            && b[grp[j] as int].cands() == b[grp[p] as int].cands() && #[trigger] sol[grp[j] as int] == x,
{
    let s = b[grp[p] as int].cands();
    assert(b[grp[p] as int].wf());
    lemma_sorted_no_dup(b[grp[p] as int].options@);
    let members = same_members(b, grp, s, 9);
    lemma_same_members_len(b, grp, s, 9);
    let pick = |j: int| sol[grp[j] as int];
    assert(vstd::relations::injective_on(pick, members)) by {
        assert forall|j1: int, j2: int| members.contains(j1) && members.contains(j2) && #[trigger] pick(j1) == #[trigger] pick(j2) implies j1 == j2 by {
            if j1 != j2 {
                assert(sol[grp[j1] as int] != sol[grp[j2] as int]);
            }
        }
    }
    let taken = members.map(pick);
    vstd::set_lib::lemma_map_size(members, taken, pick);
    assert(taken.subset_of(s)) by {
        assert forall|v: u8| taken.contains(v) implies s.contains(v) by {
            let j = choose|j: int| members.contains(j) && pick(j) == v;
            assert(b[grp[j] as int].cands().contains(sol[grp[j] as int]));
        }
    }
    vstd::set_lib::lemma_subset_equality(taken, s);
    assert forall|x: u8| #[trigger] s.contains(x) implies exists|j: int| 0 <= j < 9
        && b[grp[j] as int].cands() == s && #[trigger] sol[grp[j] as int] == x by {
        assert(taken.contains(x));
        let j = choose|j: int| members.contains(j) && pick(j) == x;
        assert(sol[grp[j] as int] == x);
    }
}

/// No member whose candidates differ from a naked subset takes one of its
/// digits in a solution.
proof fn lemma_naked_taken(b: Seq<Cell>, grp: Seq<usize>, p: int, sol: Seq<u8>, k: int)
    requires
        grp.len() == 9,
        b.len() == 81,
        sol.len() == 81,
        0 <= p < 9,
        0 <= k < 9,
        naked(b, grp, p),
        forall|j: int| 0 <= j < 9 ==> #[trigger] grp[j] < 81,
        forall|j: int| 0 <= j < 9 ==> (#[trigger] b[grp[j] as int]).wf() && b[grp[j] as int].cands().contains(sol[grp[j] as int]),
        forall|j1: int, j2: int| 0 <= j1 < 9 && 0 <= j2 < 9 && j1 != j2 ==> sol[#[trigger] grp[j1] as int] != sol[#[trigger] grp[j2] as int],
        b[grp[k] as int].cands() != b[grp[p] as int].cands(),
    ensures
        !b[grp[p] as int].cands().contains(sol[grp[k] as int]),
{
    lemma_naked_cover(b, grp, p, sol);
    let x = sol[grp[k] as int];
    if b[grp[p] as int].cands().contains(x) {
        let j = choose|j: int| 0 <= j < 9 && b[grp[j] as int].cands() == b[grp[p] as int].cands() && #[trigger] sol[grp[j] as int] == x;
        if j != k {
            assert(sol[grp[j] as int] != sol[grp[k] as int]);
        }
    }
}

proof fn lemma_sweep_keeps_own(b: Seq<Cell>, grp: Seq<usize>, own: Set<u8>, n: int)
    requires
        forall|q: int| 0 <= q < n && #[trigger] naked(b, grp, q) && b[grp[q] as int].cands() != own
            ==> b[grp[q] as int].cands().disjoint(own),
    ensures
        sweep(b, grp, own, own, n) == own,
    decreases n,
{
    if n > 0 {
        lemma_sweep_keeps_own(b, grp, own, n - 1);
        let c = b[grp[n - 1] as int];
        if naked(b, grp, n - 1) && c.cands() != own {
            assert(own.difference(c.cands()) =~= own);
        }
    }
}

/// Naked subset on a solvable board: when member `p` of a group is a naked
/// subset, after a naked-subset pass every member whose candidates differ
/// from it holds none of its digits, and every member that held exactly those
/// digits still holds exactly them.
pub proof fn naked_subset_solvable_law(b1: Seq<Cell>, b2: Seq<Cell>, f: Seq<Vec<usize>>, g: int, p: int, sol: Seq<u8>)
    requires
        board_wf(b1),
        board_wf(b2),
        family_ok(f),
        pairs_done(b1, b2, f),
        fits(b1, sol),
        distinct_in(f, sol),
        0 <= g < f.len(),
        0 <= p < 9,
        naked(b1, f[g]@, p),
    ensures
        forall|k: int| 0 <= k < 9 && b1[f[g]@[k] as int].cands() != b1[f[g]@[p] as int].cands()
            ==> (#[trigger] b2[f[g]@[k] as int]).cands().disjoint(b1[f[g]@[p] as int].cands()),
        forall|k: int| 0 <= k < 9 && b1[f[g]@[k] as int].cands() == b1[f[g]@[p] as int].cands()
            ==> (#[trigger] b2[f[g]@[k] as int]).cands() == b1[f[g]@[p] as int].cands(),
{
    let grp = f[g]@;
    let s = b1[grp[p] as int].cands();
    assert forall|j: int| 0 <= j < 9 implies #[trigger] grp[j] < 81 by {
        assert(f[g]@[j] < 81);
    }
    assert forall|j: int| 0 <= j < 9 implies (#[trigger] b1[grp[j] as int]).wf() && b1[grp[j] as int].cands().contains(sol[grp[j] as int]) by {
        assert(f[g]@[j] < 81);
    }
    assert forall|j1: int, j2: int| 0 <= j1 < 9 && 0 <= j2 < 9 && j1 != j2 implies sol[#[trigger] grp[j1] as int] != sol[#[trigger] grp[j2] as int] by {
        assert(sol[f[g]@[j1] as int] != sol[f[g]@[j2] as int]);
    }
    pairs_sound(b1, b2, f, sol);
    assert forall|k: int| 0 <= k < 9 && b1[f[g]@[k] as int].cands() != s
        implies (#[trigger] b2[f[g]@[k] as int]).cands().disjoint(s) by {
        let i = grp[k] as int;
        naked_subset_law(b1, b2, f, g, p, k);
        if b2[i].resolved() {
            assert(b2[i].wf());
            assert(b2[i].cands().contains(sol[i]));
            assert(b2[i].cands() =~= set![sol[i]]) by {
                assert forall|x: u8| b2[i].cands().contains(x) implies x == sol[i] by {
                    let j = choose|j: int| 0 <= j < b2[i].options@.len() && b2[i].options@[j] == x;
                    let j2 = choose|j2: int| 0 <= j2 < b2[i].options@.len() && b2[i].options@[j2] == sol[i];
                    assert(j == 0 && j2 == 0);
                }
            }
            lemma_naked_taken(b1, grp, p, sol, k);
        }
    }
    assert forall|k: int| 0 <= k < 9 && b1[f[g]@[k] as int].cands() == s
        implies (#[trigger] b2[f[g]@[k] as int]).cands() == s by {
        assert forall|q: int| 0 <= q < 9 && #[trigger] naked(b1, grp, q) && b1[grp[q] as int].cands() != s
            implies b1[grp[q] as int].cands().disjoint(s) by {
            lemma_naked_cover(b1, grp, p, sol);
            assert forall|x: u8| s.contains(x) implies !b1[grp[q] as int].cands().contains(x) by {
                assert(b1[grp[p] as int].cands().contains(x));
                let j = choose|j: int| 0 <= j < 9 && b1[grp[j] as int].cands() == s && #[trigger] sol[grp[j] as int] == x;
                lemma_naked_taken(b1, grp, q, sol, j);
            }
        }
        lemma_sweep_keeps_own(b1, grp, s, 9);
    }
}

/// Soundness of naked-single elimination: an assignment that gives each cell
/// one of its candidates and repeats no digit inside a group of the family
/// still does so after the pass. So a cell of a solvable board never loses
/// its last candidate.
pub proof fn singles_sound(b1: Seq<Cell>, b2: Seq<Cell>, f: Seq<Vec<usize>>, sol: Seq<u8>)
    requires
        board_wf(b1),
        family_ok(f),
        singles_done(b1, b2, f),
        fits(b1, sol),
        distinct_in(f, sol),
    ensures
        fits(b2, sol),
{
    assert forall|i: int| 0 <= i < 81 implies (#[trigger] b2[i]).cands().contains(sol[i]) by {
        assert(b1[i].wf());
        lemma_sorted_no_dup(b1[i].options@);
        if in_family(f, i) {
            let (g, k) = choose|g: int, k: int| 0 <= g < f.len() && 0 <= k < 9 && #[trigger] f[g]@[k] == i;
            let grp = f[g]@;
            assert(b2[grp[k] as int] == b2[i]);
            let vals = singles(b1, grp, 9);
            if b1[i].resolved() {
                lemma_strip_shrinks(b1[i].cands(), vals);
            } else {
                lemma_singles_members(b1, grp, 9, sol[i]);
                if vals.contains(sol[i]) {
                    let p = choose|p: int| 0 <= p < 9 && (#[trigger] b1[grp[p] as int]).options@ == seq![sol[i]];
                    assert(f[g]@[p] < 81);
                    let cp = b1[grp[p] as int];
                    assert(cp.cands().contains(sol[grp[p] as int]));
                    assert(cp.options@[0] == sol[grp[p] as int]);
                    if p != k {
                        assert(sol[f[g]@[p] as int] != sol[f[g]@[k] as int]);
                    }
                }
                lemma_strip_keeps(b1[i].cands(), vals, sol[i]);
            }
        }
    }
}

/// Soundness of naked-subset elimination: an assignment that gives each cell
/// one of its candidates and repeats no digit inside a group of the family
/// still does so after the pass. So a cell of a solvable board never loses
/// its last candidate.
pub proof fn pairs_sound(b1: Seq<Cell>, b2: Seq<Cell>, f: Seq<Vec<usize>>, sol: Seq<u8>)
    requires
        board_wf(b1),
        family_ok(f),
        pairs_done(b1, b2, f),
        fits(b1, sol),
        distinct_in(f, sol),
    ensures
        fits(b2, sol),
{
    assert forall|i: int| 0 <= i < 81 implies (#[trigger] b2[i]).cands().contains(sol[i]) by {
        if in_family(f, i) {
            let (g, k) = choose|g: int, k: int| 0 <= g < f.len() && 0 <= k < 9 && #[trigger] f[g]@[k] == i;
            let grp = f[g]@;
            assert(b2[grp[k] as int] == b2[i]);
            let own = b1[i].cands();
            assert forall|j: int| 0 <= j < 9 implies #[trigger] grp[j] < 81 by {
                assert(f[g]@[j] < 81);
            }
            assert forall|j: int| 0 <= j < 9 implies (#[trigger] b1[grp[j] as int]).wf() && b1[grp[j] as int].cands().contains(sol[grp[j] as int]) by {
                assert(f[g]@[j] < 81);
            }
            assert forall|j1: int, j2: int| 0 <= j1 < 9 && 0 <= j2 < 9 && j1 != j2 implies sol[#[trigger] grp[j1] as int] != sol[#[trigger] grp[j2] as int] by {
                assert(sol[f[g]@[j1] as int] != sol[f[g]@[j2] as int]);
            }
            assert forall|p: int| 0 <= p < 9 && #[trigger] naked(b1, grp, p) && b1[grp[p] as int].cands() != own
                implies !b1[grp[p] as int].cands().contains(sol[i]) by {
                lemma_naked_taken(b1, grp, p, sol, k);
            }
            lemma_sweep_keeps(b1, grp, own, own, 9, sol[i]);
        }
    }
}

proof fn lemma_strip_shrinks(t: Set<u8>, vals: Seq<u8>)
    requires
        t.finite(),
    ensures
        strip(t, vals).finite(),
        strip(t, vals).subset_of(t),
        t.len() == 1 ==> strip(t, vals) == t,
        t.len() >= 1 ==> strip(t, vals).len() >= 1,
    decreases vals.len(),
{
    if vals.len() > 0 {
        lemma_strip_shrinks(t, vals.drop_last());
        let u = strip(t, vals.drop_last());
        if u.len() != 1 && u.contains(vals.last()) {
            assert(u.remove(vals.last()).len() == u.len() - 1);
        }
    }
}

proof fn lemma_sweep_shrinks(b: Seq<Cell>, grp: Seq<usize>, own: Set<u8>, t: Set<u8>, n: int)
    requires
        t.finite(),
    ensures
        sweep(b, grp, own, t, n).finite(),
        sweep(b, grp, own, t, n).subset_of(t),
        t.len() == 1 ==> sweep(b, grp, own, t, n) == t,
    decreases n,
{
    if n > 0 {
        lemma_sweep_shrinks(b, grp, own, t, n - 1);
    }
}

/// Under a naked-single pass no candidate set grows, none that held a digit
/// becomes empty, and a resolved cell keeps its digit.
pub proof fn singles_shrink(b1: Seq<Cell>, b2: Seq<Cell>, f: Seq<Vec<usize>>)
    requires
        b1.len() == 81,
        forall|i: int| 0 <= i < 81 ==> (#[trigger] b1[i]).wf() && b2[i].wf(),
        family_ok(f),
        singles_done(b1, b2, f),
    ensures
        forall|i: int| 0 <= i < 81 ==> (#[trigger] b2[i]).cands().subset_of(b1[i].cands()),
        forall|i: int| 0 <= i < 81 && b1[i].options@.len() >= 1 ==> (#[trigger] b2[i]).options@.len() >= 1,
        forall|i: int| 0 <= i < 81 && b1[i].resolved() ==> (#[trigger] b2[i]).options@ == b1[i].options@,
{
    assert forall|i: int| 0 <= i < 81 implies (#[trigger] b2[i]).cands().subset_of(b1[i].cands())
        && (b1[i].options@.len() >= 1 ==> b2[i].options@.len() >= 1)
        && (b1[i].resolved() ==> b2[i].options@ == b1[i].options@) by {
        assert(b1[i].wf() && b2[i].wf());
        lemma_sorted_no_dup(b1[i].options@);
        lemma_sorted_no_dup(b2[i].options@);
        if in_family(f, i) {
            let (g, k) = choose|g: int, k: int| 0 <= g < f.len() && 0 <= k < 9 && #[trigger] f[g]@[k] == i;
            assert(b2[f[g]@[k] as int] == b2[i]);
            lemma_strip_shrinks(b1[i].cands(), singles(b1, f[g]@, 9));
        }
        if b1[i].resolved() {
            lemma_sorted_set_eq(b1[i].options@, b2[i].options@);
        }
    }
}

/// Under a naked-subset pass no candidate set grows, and a resolved cell
/// keeps its digit.
pub proof fn pairs_shrink(b1: Seq<Cell>, b2: Seq<Cell>, f: Seq<Vec<usize>>)
    requires
        b1.len() == 81,
        forall|i: int| 0 <= i < 81 ==> (#[trigger] b1[i]).wf() && b2[i].wf(),
        family_ok(f),
        pairs_done(b1, b2, f),
    ensures
        forall|i: int| 0 <= i < 81 ==> (#[trigger] b2[i]).cands().subset_of(b1[i].cands()),
        forall|i: int| 0 <= i < 81 && b1[i].resolved() ==> (#[trigger] b2[i]).options@ == b1[i].options@,
{
    assert forall|i: int| 0 <= i < 81 implies (#[trigger] b2[i]).cands().subset_of(b1[i].cands())
        && (b1[i].resolved() ==> b2[i].options@ == b1[i].options@) by {
        assert(b1[i].wf() && b2[i].wf());
        lemma_sorted_no_dup(b1[i].options@);
        lemma_sorted_no_dup(b2[i].options@);
        if in_family(f, i) {
            let (g, k) = choose|g: int, k: int| 0 <= g < f.len() && 0 <= k < 9 && #[trigger] f[g]@[k] == i;
            assert(b2[f[g]@[k] as int] == b2[i]);
            lemma_sweep_shrinks(b1, f[g]@, b1[i].cands(), b1[i].cands(), 9);
        }
        if b1[i].resolved() {
            lemma_sorted_set_eq(b1[i].options@, b2[i].options@);
        }
    }
}

proof fn lemma_singles_members(b: Seq<Cell>, grp: Seq<usize>, n: int, x: u8)
    requires
        0 <= n <= grp.len(),
    ensures
        singles(b, grp, n).contains(x) <==> exists|p: int| 0 <= p < n && (#[trigger] b[grp[p] as int]).options@ == seq![x],
    decreases n,
{
    if n > 0 {
        lemma_singles_members(b, grp, n - 1, x);
        let c = b[grp[n - 1] as int];
        let s = singles(b, grp, n - 1);
        if c.resolved() {
            assert(s.push(c.options@[0]).contains(x) <==> (s.contains(x) || c.options@[0] == x)) by {
                if s.push(c.options@[0]).contains(x) {
                    let j = choose|j: int| 0 <= j < s.len() + 1 && s.push(c.options@[0])[j] == x;
                    if j < s.len() {
                        assert(s[j] == x);
                    }
                }
                if s.contains(x) {
                    let j = choose|j: int| 0 <= j < s.len() && s[j] == x;
                    assert(s.push(c.options@[0])[j] == x);
                }
                if c.options@[0] == x {
                    assert(s.push(c.options@[0])[s.len() as int] == x);
                }
            }
            if c.options@[0] == x {
                assert(c.options@ =~= seq![x]);
            }
        }
        if exists|p: int| 0 <= p < n && (#[trigger] b[grp[p] as int]).options@ == seq![x] {
            let p = choose|p: int| 0 <= p < n && (#[trigger] b[grp[p] as int]).options@ == seq![x];
            if p < n - 1 {
            } else {
                assert(c.options@[0] == x);
            }
        }
    }
}

proof fn lemma_strip_pair(d: u8, e: u8, vals: Seq<u8>)
    requires
        d != e,
        !vals.contains(e),
    ensures
        vals.contains(d) ==> strip(set![d, e], vals) == set![e],
        !vals.contains(d) ==> strip(set![d, e], vals) == set![d, e],
    decreases vals.len(),
{
    if vals.len() > 0 {
        let init = vals.drop_last();
        assert forall|x: u8| init.contains(x) implies vals.contains(x) by {
            let j = choose|j: int| 0 <= j < init.len() && init[j] == x;
            assert(vals[j] == x);
        }
        lemma_strip_pair(d, e, init);
        assert(vals.contains(d) <==> (init.contains(d) || vals.last() == d)) by {
            if vals.contains(d) {
                let j = choose|j: int| 0 <= j < vals.len() && vals[j] == d;
                if j < vals.len() - 1 {
                    assert(init[j] == d);
                }
            }
        }
        assert(set![e].len() == 1);
        assert(set![d, e].len() == 2);
        assert(set![d, e].remove(d) =~= set![e]);
        assert(vals.last() != e);
        if vals.last() != d {
            assert(set![d, e].remove(vals.last()) =~= set![d, e]);
        }
    }
}

/// Naked single: a cell holding `{d, e}`, in a group where some resolved cell
/// holds `d` and none holds `e`, holds exactly `{e}` after a naked-single pass.
pub proof fn naked_single_law(b1: Seq<Cell>, b2: Seq<Cell>, f: Seq<Vec<usize>>, g: int, k: int, d: u8, e: u8)
    requires
        b1.len() == 81,
        forall|i: int| 0 <= i < 81 ==> (#[trigger] b1[i]).wf(),
        family_ok(f),
        singles_done(b1, b2, f),
        0 <= g < f.len(),
        0 <= k < 9,
        d != e,
        b1[f[g]@[k] as int].cands() == set![d, e],
        exists|p: int| 0 <= p < 9 && (#[trigger] b1[f[g]@[p] as int]).options@ == seq![d],
        forall|p: int| 0 <= p < 9 ==> (#[trigger] b1[f[g]@[p] as int]).options@ != seq![e],
    ensures
        b2[f[g]@[k] as int].cands() == set![e],
{
    lemma_singles_members(b1, f[g]@, 9, d);
    lemma_singles_members(b1, f[g]@, 9, e);
    lemma_strip_pair(d, e, singles(b1, f[g]@, 9));
}

/// Naked subset: when member `p` of a group is a naked subset, every member
/// whose candidates differ from it ends a naked-subset pass holding none of
/// those digits, unless it is resolved by then.
pub proof fn naked_subset_law(b1: Seq<Cell>, b2: Seq<Cell>, f: Seq<Vec<usize>>, g: int, p: int, k: int)
    requires
        b1.len() == 81,
        forall|i: int| 0 <= i < 81 ==> (#[trigger] b1[i]).wf() && b2[i].wf(),
        family_ok(f),
        pairs_done(b1, b2, f),
        0 <= g < f.len(),
        0 <= p < 9,
        0 <= k < 9,
        naked(b1, f[g]@, p),
        b1[f[g]@[k] as int].cands() != b1[f[g]@[p] as int].cands(),
    ensures
        b2[f[g]@[k] as int].cands().disjoint(b1[f[g]@[p] as int].cands()) || b2[f[g]@[k] as int].resolved(),
{
    let i = f[g]@[k] as int;
    assert(f[g]@[k] < 81);
    lemma_sorted_no_dup(b2[i].options@);
    lemma_sweep_after(b1, f[g]@, b1[i].cands(), b1[i].cands(), p, 9);
}

proof fn lemma_sweep_after(b: Seq<Cell>, grp: Seq<usize>, own: Set<u8>, t: Set<u8>, p: int, n: int)
    requires
        0 <= p < n,
        naked(b, grp, p),
        b[grp[p] as int].cands() != own,
    ensures
        sweep(b, grp, own, t, n).disjoint(b[grp[p] as int].cands()) || sweep(b, grp, own, t, n).len() == 1,
    decreases n,
{
    if n - 1 > p {
        lemma_sweep_after(b, grp, own, t, p, n - 1);
    }
}

/// Printing a board read from text: a cell given as a digit shows that
/// character in the slot of its digit and blanks in the eight other slots.
pub proof fn given_cell_picture(b: Seq<Cell>, row: int, col: int, c: char, t: int, u: int)
    requires
        b.len() == 81,
        0 <= row < 9,
        0 <= col < 9,
        0 <= t < 3,
        0 <= u < 3,
        given_char(c),
        cell_matches(b[index_of(row, col)], c),
    ensures
        picture_line(b, 4 * row + 1 + t)[4 * col + 1 + u] == if 3 * t + u + 1 == digit_of(c) {
            c as u32 as u8
        } else {
            32u8
        },
{
    let cell = b[index_of(row, col)];
    let l = 4 * row + 1 + t;
    let x = 4 * col + 1 + u;
    assert(l % 4 == t + 1 && l / 4 == row);
    assert(x % 4 == u + 1 && x / 4 == col);
    assert(cell.cands().contains((3 * t + u + 1) as u8) <==> 3 * t + u + 1 == digit_of(c)) by {
        if cell.cands().contains((3 * t + u + 1) as u8) {
            let j = choose|j: int| 0 <= j < cell.options@.len() && cell.options@[j] == (3 * t + u + 1) as u8;
            assert(j == 0);
        }
        if 3 * t + u + 1 == digit_of(c) {
            assert(cell.options@[0] == digit_of(c));
        }
    }
    assert(glyph(cell, 3 * t + u + 1) == if 3 * t + u + 1 == digit_of(c) { c as u32 as u8 } else { 32u8 });
}

} // verus!
