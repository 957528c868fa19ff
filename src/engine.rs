use vstd::prelude::*;
use crate::cell::{Cell, is_digit, sorted_digits, lemma_sorted_no_dup};
use crate::theorems::{
    distinct_in, fits, keeps_solutions, keeps_solutions_refl, keeps_solutions_step, layout_ok, pairs_shrink, pairs_sound, pass_step, pass_step_from, round_done, round_done_from,
    rounds_to_fixed_point, history_step,
    quiet_round_is_stable, shrunk, shrunk_refl, shrunk_trans, singles_shrink, singles_sound, stable, total_lower,
};
use crate::render::shows;
use crate::puzzle::{Puzzle, Violation, box_seq, col_seq, consistent, row_seq, family_ok, lemma_boxes_ok, lemma_cols_ok, lemma_rows_ok};

verus! {

/// `t2` is `t1` with zero or more entries added at the end.
pub open spec fn extends<T>(t2: Seq<T>, t1: Seq<T>) -> bool {
    t1.len() <= t2.len() && forall|i: int| 0 <= i < t1.len() ==> #[trigger] t2[i] == t1[i]
}

pub proof fn lemma_extends_trans<T>(t3: Seq<T>, t2: Seq<T>, t1: Seq<T>)
    requires
        extends(t3, t2),
        extends(t2, t1),
    ensures
        extends(t3, t1),
{
    assert forall|i: int| 0 <= i < t1.len() implies #[trigger] t3[i] == t1[i] by {
        assert(t3[i] == t2[i]);
    }
}

/// Total number of candidates on a board.
pub open spec fn total(b: Seq<Cell>) -> int
    decreases b.len(),
{
    if b.len() == 0 {
        0
    } else {
        total(b.drop_last()) + b.last().options@.len()
    }
}

/// The digits of the resolved cells among the first `n` members of `grp`, in order.
pub open spec fn singles(b: Seq<Cell>, grp: Seq<usize>, n: int) -> Seq<u8>
    decreases n,
{
    if n <= 0 {
        seq![]
    } else {
        let c = b[grp[n - 1] as int];
        if c.resolved() {
            singles(b, grp, n - 1).push(c.options@[0])
        } else {
            singles(b, grp, n - 1)
        }
    }
}

/// Candidates `t` after removing the digits `vals` one at a time, where a
/// removal is skipped once a single candidate is left.
pub open spec fn strip(t: Set<u8>, vals: Seq<u8>) -> Set<u8>
    decreases vals.len(),
{
    if vals.len() == 0 {
        t
    } else {
        let u = strip(t, vals.drop_last());
        if u.len() == 1 {
            u
        } else {
            u.remove(vals.last())
        }
    }
}

/// Index `i` is a member of some group of the family.
pub open spec fn in_family(f: Seq<Vec<usize>>, i: int) -> bool {
    exists|g: int, k: int| 0 <= g < f.len() && 0 <= k < 9 && #[trigger] f[g]@[k] == i
}

/// Board `b2` is board `b1` after naked-single elimination over family `f`.
pub open spec fn singles_done(b1: Seq<Cell>, b2: Seq<Cell>, f: Seq<Vec<usize>>) -> bool {
    &&& b2.len() == b1.len()
    &&& forall|g: int, k: int| 0 <= g < f.len() && 0 <= k < 9 ==> (#[trigger] b2[f[g]@[k] as int]).cands()
        == strip(b1[f[g]@[k] as int].cands(), singles(b1, f[g]@, 9))
    &&& forall|i: int| 0 <= i < b1.len() && !in_family(f, i) ==> (#[trigger] b2[i]).options@ == b1[i].options@
}


/// How many of the first `n` members of `grp` have exactly the candidates `s`.
pub open spec fn count_same(b: Seq<Cell>, grp: Seq<usize>, s: Set<u8>, n: int) -> int
    decreases n,
{
    if n <= 0 {
        0
    } else {
        count_same(b, grp, s, n - 1) + if b[grp[n - 1] as int].cands() == s { 1int } else { 0 }
    }
}

/// Member `k` of `grp` is unresolved, and exactly as many members of the group
/// hold its candidate set as that set has digits.
pub open spec fn naked(b: Seq<Cell>, grp: Seq<usize>, k: int) -> bool {
    let c = b[grp[k] as int];
    !c.resolved() && count_same(b, grp, c.cands(), 9) == c.options@.len()
}

/// Candidates `t` of a member whose candidates were `own` when the pass began,
/// after the naked subsets among the first `n` members of `grp` have been
/// applied; a subset equal to `own` is skipped, and so is every subset once a
/// single candidate is left.
pub open spec fn sweep(b: Seq<Cell>, grp: Seq<usize>, own: Set<u8>, t: Set<u8>, n: int) -> Set<u8>
    decreases n,
{
    if n <= 0 {
        t
    } else {
        let u = sweep(b, grp, own, t, n - 1);
        let c = b[grp[n - 1] as int];
        if naked(b, grp, n - 1) && c.cands() != own && u.len() != 1 {
            u.difference(c.cands())
        } else {
            u
        }
    }
}

/// Board `b2` is board `b1` after naked-subset elimination over family `f`.
pub open spec fn pairs_done(b1: Seq<Cell>, b2: Seq<Cell>, f: Seq<Vec<usize>>) -> bool {
    &&& b2.len() == b1.len()
    &&& forall|g: int, k: int| 0 <= g < f.len() && 0 <= k < 9 ==> (#[trigger] b2[f[g]@[k] as int]).cands()
        == sweep(b1, f[g]@, b1[f[g]@[k] as int].cands(), b1[f[g]@[k] as int].cands(), 9)
    &&& forall|i: int| 0 <= i < b1.len() && !in_family(f, i) ==> (#[trigger] b2[i]).options@ == b1[i].options@
}

pub proof fn lemma_count_same_same(b1: Seq<Cell>, b2: Seq<Cell>, grp: Seq<usize>, s: Set<u8>, n: int)
    requires
        0 <= n <= grp.len(),
        forall|k: int| 0 <= k < n ==> (#[trigger] b1[grp[k] as int]).options@ == b2[grp[k] as int].options@,
    ensures
        count_same(b1, grp, s, n) == count_same(b2, grp, s, n),
    decreases n,
{
    if n > 0 {
        lemma_count_same_same(b1, b2, grp, s, n - 1);
    }
}

proof fn lemma_count_same_le(b: Seq<Cell>, grp: Seq<usize>, s: Set<u8>, n: int)
    requires
        0 <= n,
    ensures
        0 <= count_same(b, grp, s, n) <= n,
    decreases n,
{
    if n > 0 {
        lemma_count_same_le(b, grp, s, n - 1);
    }
}

proof fn lemma_sorted_ge(s: Seq<u8>, i: int)
    requires
        sorted_digits(s),
        0 <= i < s.len(),
    ensures
        s[i] >= i + 1,
    decreases i,
{
    assert(is_digit(s[i]));
    if i > 0 {
        lemma_sorted_ge(s, i - 1);
        assert(s[i - 1] < s[i]);
    }
}

pub proof fn lemma_sorted_len(s: Seq<u8>)
    requires
        sorted_digits(s),
    ensures
        s.len() <= 9,
{
    if s.len() > 9 {
        lemma_sorted_ge(s, 9);
        assert(is_digit(s[9]));
    }
}

pub proof fn lemma_total_update(b: Seq<Cell>, i: int, c: Cell)
    requires
        0 <= i < b.len(),
    ensures
        total(b.update(i, c)) == total(b) - b[i].options@.len() + c.options@.len(),
    decreases b.len(),
{
    let b2 = b.update(i, c);
    if i == b.len() - 1 {
        assert(b2.drop_last() =~= b.drop_last());
    } else {
        assert(b2.drop_last() =~= b.drop_last().update(i, c));
        lemma_total_update(b.drop_last(), i, c);
    }
}

pub proof fn lemma_total_bound(b: Seq<Cell>)
    requires
        forall|i: int| 0 <= i < b.len() ==> (#[trigger] b[i]).wf(),
    ensures
        0 <= total(b) <= 9 * b.len(),
    decreases b.len(),
{
    if b.len() > 0 {
        lemma_total_bound(b.drop_last());
        lemma_sorted_len(b.last().options@);
    }
}

pub proof fn lemma_singles_same(b1: Seq<Cell>, b2: Seq<Cell>, grp: Seq<usize>, n: int)
    requires
        0 <= n <= grp.len(),
        forall|k: int| 0 <= k < n ==> 0 <= #[trigger] grp[k] < b1.len() && grp[k] < b2.len(),
        forall|k: int| 0 <= k < n ==> (#[trigger] b1[grp[k] as int]).options@ == b2[grp[k] as int].options@,
    ensures
        singles(b1, grp, n) == singles(b2, grp, n),
    decreases n,
{
    if n > 0 {
        lemma_singles_same(b1, b2, grp, n - 1);
    }
}

impl Puzzle {
    /// Naked-single elimination over every group of `family`: in each group,
    /// the digit of every resolved cell is removed from the other cells of the
    /// group that are not resolved. Decisions read the board as it was when the
    /// pass began. Returns the number of candidates removed.
    pub fn remove_singles(&mut self, family: &Vec<Vec<usize>>) -> (r: usize)
        requires
            old(self).wf(),
            family_ok(family@),
        ensures
            final(self).wf(),
            forall|i: int| 0 <= i < 81 ==> (#[trigger] final(self).board@[i]).pos == old(self).board@[i].pos,
            singles_done(old(self).board@, final(self).board@, family@),
            r == total(old(self).board@) - total(final(self).board@),
    {
        let ghost b0 = self.board@;
        let mut removals: usize = 0;
        let mut g: usize = 0;
        proof {
            lemma_total_bound(b0);
        }
        while g < family.len()
            invariant
                g <= family@.len(),
                family_ok(family@),
                self.wf(),
                b0 == old(self).board@,
                b0.len() == 81,
                0 <= total(b0) <= 729,
                removals == total(b0) - total(self.board@),
                forall|g2: int, k: int| 0 <= g2 < g && 0 <= k < 9 ==> (#[trigger] self.board@[family@[g2]@[k] as int]).cands()
                    == strip(b0[family@[g2]@[k] as int].cands(), singles(b0, family@[g2]@, 9)),
                forall|i: int| 0 <= i < 81 && !(exists|g2: int, k: int| 0 <= g2 < g && 0 <= k < 9 && #[trigger] family@[g2]@[k] == i)
                    ==> (#[trigger] self.board@[i]).options@ == b0[i].options@,
            decreases family@.len() - g,
        {
            let grp = &family[g];
            assert forall|k: int| 0 <= k < 9 implies (#[trigger] self.board@[grp@[k] as int]).options@ == b0[grp@[k] as int].options@ by {
                let i = grp@[k] as int;
                assert(family@[g as int]@[k] < 81);
                if exists|g2: int, k2: int| 0 <= g2 < g && 0 <= k2 < 9 && #[trigger] family@[g2]@[k2] == i {
                    let (g2, k2) = choose|g2: int, k2: int| 0 <= g2 < g && 0 <= k2 < 9 && #[trigger] family@[g2]@[k2] == i;
                    assert(family@[g2]@[k2] == family@[g as int]@[k]);
                }
            }
            assert forall|k: int| 0 <= k < 9 implies #[trigger] grp@[k] < 81 by {
                assert(family@[g as int]@[k] < 81);
            }
            let mut vals: Vec<u8> = Vec::new();
            let mut k: usize = 0;
            while k < 9
                invariant
                    k <= 9,
                    grp@.len() == 9,
                    self.wf(),
                    forall|k2: int| 0 <= k2 < 9 ==> #[trigger] grp@[k2] < 81,
                    vals@ == singles(self.board@, grp@, k as int),
                decreases 9 - k,
            {
                if let Some(d) = self.board[grp[k]].get_single() {
                    vals.push(d);
                }
                k = k + 1;
            }
            proof {
                lemma_singles_same(self.board@, b0, grp@, 9);
            }
            let ghost mid = self.board@;
            let mut k: usize = 0;
            while k < 9
                invariant
                    k <= 9,
                    g < family@.len(),
                    grp == family@[g as int],
                    family_ok(family@),
                    self.wf(),
                    b0 == old(self).board@,
                    b0.len() == 81,
                    0 <= total(b0) <= 729,
                    removals == total(b0) - total(self.board@),
                    vals@ == singles(b0, grp@, 9),
                    forall|k2: int| 0 <= k2 < 9 ==> (#[trigger] mid[grp@[k2] as int]).options@ == b0[grp@[k2] as int].options@,
                    forall|k2: int| 0 <= k2 < k ==> (#[trigger] self.board@[grp@[k2] as int]).cands()
                        == strip(b0[grp@[k2] as int].cands(), vals@),
                    forall|i: int| 0 <= i < 81 && !(exists|k2: int| 0 <= k2 < k && #[trigger] grp@[k2] == i)
                        ==> (#[trigger] self.board@[i]) == mid[i],
                decreases 9 - k,
            {
                let i = grp[k];
                assert(family@[g as int]@[k as int] < 81);
                let ghost start = self.board@;
                assert(start[i as int] == mid[i as int]) by {
                    if exists|k2: int| 0 <= k2 < k && #[trigger] grp@[k2] == i {
                        let k2 = choose|k2: int| 0 <= k2 < k && #[trigger] grp@[k2] == i;
                        assert(family@[g as int]@[k2] == family@[g as int]@[k as int]);
                    }
                }
                let mut s: usize = 0;
                while s < vals.len()
                    invariant
                        s <= vals@.len(),
                        i < 81,
                        self.wf(),
                        0 <= total(b0) <= 729,
                        removals == total(b0) - total(self.board@),
                        self.board@[i as int].cands() == strip(start[i as int].cands(), vals@.take(s as int)),
                        forall|j: int| 0 <= j < 81 && j != i ==> (#[trigger] self.board@[j]) == start[j],
                    decreases vals@.len() - s,
                {
                    let ghost before = self.board@;
                    proof {
                        lemma_sorted_no_dup(self.board@[i as int].options@);
                        assert(vals@.take(s + 1).drop_last() =~= vals@.take(s as int));
                        lemma_total_bound(self.board@);
                    }
                    let hit = self.board[i].remove_single(vals[s]);
                    proof {
                        lemma_total_update(before, i as int, self.board@[i as int]);
                        assert(self.board@ =~= before.update(i as int, self.board@[i as int]));
                    }
                    if hit {
                        removals = removals + 1;
                    }
                    s = s + 1;
                }
                assert(vals@.take(vals@.len() as int) =~= vals@);
                assert(mid[grp@[k as int] as int].options@ == b0[grp@[k as int] as int].options@);
                assert forall|i2: int| 0 <= i2 < 81 && !(exists|k2: int| 0 <= k2 < k + 1 && #[trigger] grp@[k2] == i2)
                    implies (#[trigger] self.board@[i2]) == mid[i2] by {
                    assert(grp@[k as int] != i2);
                    assert(!(exists|k2: int| 0 <= k2 < k && #[trigger] grp@[k2] == i2)) by {
                        if exists|k2: int| 0 <= k2 < k && #[trigger] grp@[k2] == i2 {
                            let k2 = choose|k2: int| 0 <= k2 < k && #[trigger] grp@[k2] == i2;
                            assert(grp@[k2] == i2 && 0 <= k2 < k + 1);
                        }
                    }
                }
                k = k + 1;
            }
            g = g + 1;
        }
        removals
    }

    /// Naked-subset elimination over every group of `family`: for each
    /// unresolved cell whose candidate set of size `k` is held, exactly, by
    /// `k` cells of its group, those digits are removed from every other cell
    /// of the group whose set differs and that is not resolved. Decisions read
    /// the board as it was when the pass began. Returns the number of
    /// candidates removed.
    pub fn remove_pairs(&mut self, family: &Vec<Vec<usize>>) -> (r: usize)
        requires
            old(self).wf(),
            family_ok(family@),
        ensures
            final(self).wf(),
            forall|i: int| 0 <= i < 81 ==> (#[trigger] final(self).board@[i]).pos == old(self).board@[i].pos,
            pairs_done(old(self).board@, final(self).board@, family@),
            r == total(old(self).board@) - total(final(self).board@),
    {
        let ghost b0 = self.board@;
        let mut removals: usize = 0;
        let mut g: usize = 0;
        proof {
            lemma_total_bound(b0);
        }
        while g < family.len()
            invariant
                g <= family@.len(),
                family_ok(family@),
                self.wf(),
                b0 == old(self).board@,
                b0.len() == 81,
                forall|i: int| 0 <= i < 81 ==> (#[trigger] b0[i]).wf(),
                0 <= total(b0) <= 729,
                removals == total(b0) - total(self.board@),
                forall|g2: int, k: int| 0 <= g2 < g && 0 <= k < 9 ==> (#[trigger] self.board@[family@[g2]@[k] as int]).cands()
                    == sweep(b0, family@[g2]@, b0[family@[g2]@[k] as int].cands(), b0[family@[g2]@[k] as int].cands(), 9),
                forall|i: int| 0 <= i < 81 && !(exists|g2: int, k: int| 0 <= g2 < g && 0 <= k < 9 && #[trigger] family@[g2]@[k] == i)
                    ==> (#[trigger] self.board@[i]).options@ == b0[i].options@,
            decreases family@.len() - g,
        {
            let grp = &family[g];
            assert forall|k: int| 0 <= k < 9 implies (#[trigger] self.board@[grp@[k] as int]).options@ == b0[grp@[k] as int].options@ by {
                let i = grp@[k] as int;
                assert(family@[g as int]@[k] < 81);
                if exists|g2: int, k2: int| 0 <= g2 < g && 0 <= k2 < 9 && #[trigger] family@[g2]@[k2] == i {
                    let (g2, k2) = choose|g2: int, k2: int| 0 <= g2 < g && 0 <= k2 < 9 && #[trigger] family@[g2]@[k2] == i;
                    assert(family@[g2]@[k2] == family@[g as int]@[k]);
                }
            }
            assert forall|k: int| 0 <= k < 9 implies #[trigger] grp@[k] < 81 by {
                assert(family@[g as int]@[k] < 81);
            }
            assert forall|k1: int, k2: int| 0 <= k1 < 9 && 0 <= k2 < 9 && k1 != k2 implies #[trigger] grp@[k1] != #[trigger] grp@[k2] by {
                assert(family@[g as int]@[k1] == grp@[k1]);
                assert(family@[g as int]@[k2] == grp@[k2]);
            }
            let ghost mid = self.board@;
            let mut snap: Vec<Cell> = Vec::new();
            let mut k: usize = 0;
            while k < 9
                invariant
                    k <= 9,
                    grp@.len() == 9,
                    self.board@ == mid,
                    mid.len() == 81,
                    forall|k2: int| 0 <= k2 < 9 ==> #[trigger] grp@[k2] < 81,
                    snap@.len() == k,
                    forall|k2: int| 0 <= k2 < k ==> (#[trigger] snap@[k2]).options@ == mid[grp@[k2] as int].options@,
                decreases 9 - k,
            {
                snap.push(self.board[grp[k]].copy());
                k = k + 1;
            }
            let mut i: usize = 0;
            while i < 9
                invariant
                    i <= 9,
                    g < family@.len(),
                    grp == family@[g as int],
                    grp@.len() == 9,
                    family_ok(family@),
                    self.wf(),
                    b0 == old(self).board@,
                    b0.len() == 81,
                    forall|i2: int| 0 <= i2 < 81 ==> (#[trigger] b0[i2]).wf(),
                    0 <= total(b0) <= 729,
                    removals == total(b0) - total(self.board@),
                    forall|k2: int| 0 <= k2 < 9 ==> #[trigger] grp@[k2] < 81,
                    forall|k1: int, k2: int| 0 <= k1 < 9 && 0 <= k2 < 9 && k1 != k2 ==> #[trigger] grp@[k1] != #[trigger] grp@[k2],
                    forall|k2: int| 0 <= k2 < 9 ==> (#[trigger] mid[grp@[k2] as int]).options@ == b0[grp@[k2] as int].options@,
                    snap@.len() == 9,
                    forall|k2: int| 0 <= k2 < 9 ==> (#[trigger] snap@[k2]).options@ == b0[grp@[k2] as int].options@,
                    forall|k2: int| 0 <= k2 < 9 ==> (#[trigger] self.board@[grp@[k2] as int]).cands()
                        == sweep(b0, grp@, b0[grp@[k2] as int].cands(), b0[grp@[k2] as int].cands(), i as int),
                    forall|j: int| 0 <= j < 81 && !(exists|k2: int| 0 <= k2 < 9 && #[trigger] grp@[k2] == j)
                        ==> (#[trigger] self.board@[j]) == mid[j],
                decreases 9 - i,
            {
                let c = &snap[i];
                assert(b0[grp@[i as int] as int].wf());
                assert(c.wf());
                let mut triggered = false;
                if !c.is_single() {
                    let mut same: usize = 0;
                    let mut j: usize = 0;
                    while j < 9
                        invariant
                            j <= 9,
                            grp@.len() == 9,
                            c.wf(),
                            snap@.len() == 9,
                            forall|k2: int| 0 <= k2 < 9 ==> #[trigger] grp@[k2] < 81,
                            forall|i2: int| 0 <= i2 < 81 ==> (#[trigger] b0[i2]).wf(),
                            forall|k2: int| 0 <= k2 < 9 ==> (#[trigger] snap@[k2]).options@ == b0[grp@[k2] as int].options@,
                            same == count_same(b0, grp@, c.cands(), j as int),
                            same <= j,
                        decreases 9 - j,
                    {
                        assert(b0[grp@[j as int] as int].wf());
                        if snap[j].has_exactly_options(&c.options) {
                            same = same + 1;
                        }
                        j = j + 1;
                    }
                    if same == c.options.len() {
                        triggered = true;
                        let ghost before_apply = self.board@;
                        let mut j: usize = 0;
                        while j < 9
                            invariant
                                j <= 9,
                                i < 9,
                                grp@.len() == 9,
                                c.wf(),
                                c.options@ == b0[grp@[i as int] as int].options@,
                                naked(b0, grp@, i as int),
                                self.wf(),
                                b0.len() == 81,
                                forall|i2: int| 0 <= i2 < 81 ==> (#[trigger] b0[i2]).wf(),
                                0 <= total(b0) <= 729,
                                removals == total(b0) - total(self.board@),
                                snap@.len() == 9,
                                forall|k2: int| 0 <= k2 < 9 ==> #[trigger] grp@[k2] < 81,
                                forall|k1: int, k2: int| 0 <= k1 < 9 && 0 <= k2 < 9 && k1 != k2 ==> #[trigger] grp@[k1] != #[trigger] grp@[k2],
                                forall|k2: int| 0 <= k2 < 9 ==> (#[trigger] snap@[k2]).options@ == b0[grp@[k2] as int].options@,
                                forall|k2: int| 0 <= k2 < j ==> (#[trigger] self.board@[grp@[k2] as int]).cands()
                                    == sweep(b0, grp@, b0[grp@[k2] as int].cands(), b0[grp@[k2] as int].cands(), i + 1),
                                forall|k2: int| j <= k2 < 9 ==> (#[trigger] self.board@[grp@[k2] as int]).cands()
                                    == sweep(b0, grp@, b0[grp@[k2] as int].cands(), b0[grp@[k2] as int].cands(), i as int),
                                forall|x: int| 0 <= x < 81 && !(exists|k2: int| 0 <= k2 < j && #[trigger] grp@[k2] == x)
                                    ==> (#[trigger] self.board@[x]) == before_apply[x],
                            decreases 9 - j,
                        {
                            let ix = grp[j];
                            assert(b0[ix as int].wf());
                            let ghost own = b0[ix as int].cands();
                            let ghost u = self.board@[ix as int].cands();
                            proof {
                                lemma_sorted_no_dup(self.board@[ix as int].options@);
                            }
                            if !snap[j].has_exactly_options(&c.options) {
                                let ghost before = self.board@;
                                proof {
                                    lemma_total_bound(before);
                                }
                                let n = self.board[ix].remove_multiple(c);
                                proof {
                                    lemma_total_update(before, ix as int, self.board@[ix as int]);
                                    assert(self.board@ =~= before.update(ix as int, self.board@[ix as int]));
                                    lemma_total_bound(self.board@);
                                }
                                removals = removals + n;
                            }
                            assert forall|x: int| 0 <= x < 81 && !(exists|k2: int| 0 <= k2 < j + 1 && #[trigger] grp@[k2] == x)
                                implies (#[trigger] self.board@[x]) == before_apply[x] by {
                                assert(grp@[j as int] != x);
                                assert(!(exists|k2: int| 0 <= k2 < j && #[trigger] grp@[k2] == x)) by {
                                    if exists|k2: int| 0 <= k2 < j && #[trigger] grp@[k2] == x {
                                        let k2 = choose|k2: int| 0 <= k2 < j && #[trigger] grp@[k2] == x;
                                        assert(grp@[k2] == x && 0 <= k2 < j + 1);
                                    }
                                }
                            }
                            j = j + 1;
                        }
                    }
                }
                if !triggered {
                    assert(!naked(b0, grp@, i as int)) by {
                        if !c.resolved() {
                            lemma_count_same_same(b0, b0, grp@, c.cands(), 9);
                        }
                    }
                }
                i = i + 1;
            }
            assert forall|k2: int| 0 <= k2 < 9 implies (#[trigger] mid[grp@[k2] as int]).options@ == b0[grp@[k2] as int].options@ by {}
            g = g + 1;
        }
        removals
    }

    /// One pass over `family` (naked subsets when `subsets`, naked singles
    /// otherwise) followed by the consistency check. The board is added to
    /// `trace` when the pass removed something.
    pub fn run_pass(&mut self, family: &Vec<Vec<usize>>, subsets: bool, trace: &mut Vec<Vec<Vec<u8>>>) -> (r: Result<usize, Violation>)
        requires
            old(self).wf(),
            family_ok(family@),
        ensures
            final(self).wf(),
            subsets ==> pairs_done(old(self).board@, final(self).board@, family@),
            !subsets ==> singles_done(old(self).board@, final(self).board@, family@),
            0 <= total(final(self).board@) <= total(old(self).board@) <= 729,
            shrunk(old(self).board@, final(self).board@),
            forall|sol: Seq<u8>| fits(old(self).board@, sol) && distinct_in(family@, sol)
                ==> #[trigger] fits(final(self).board@, sol),
            !subsets ==> forall|i: int| 0 <= i < 81 && old(self).board@[i].options@.len() >= 1
                ==> (#[trigger] final(self).board@[i]).options@.len() >= 1,
            r is Ok <==> consistent(final(self).board@),
            r matches Ok(n) ==> n == total(old(self).board@) - total(final(self).board@),
            total(final(self).board@) == total(old(self).board@) ==> final(trace)@ == old(trace)@,
            total(final(self).board@) < total(old(self).board@) ==> final(trace)@.len() == old(trace)@.len() + 1
                && extends(final(trace)@, old(trace)@) && shows(final(trace)@.last()@, final(self).board@),
    {
        proof {
            lemma_total_bound(self.board@);
        }
        let ghost b0 = self.board@;
        let n = if subsets {
            self.remove_pairs(family)
        } else {
            self.remove_singles(family)
        };
        proof {
            lemma_total_bound(self.board@);
            if subsets {
                pairs_shrink(b0, self.board@, family@);
            } else {
                singles_shrink(b0, self.board@, family@);
            }
            assert forall|sol: Seq<u8>| fits(b0, sol) && distinct_in(family@, sol) implies #[trigger] fits(self.board@, sol) by {
                if subsets {
                    pairs_sound(b0, self.board@, family@, sol);
                } else {
                    singles_sound(b0, self.board@, family@, sol);
                }
            }
        }
        if n > 0 {
            trace.push(self.render());
        }
        match self.verify_state() {
            Ok(()) => Ok(n),
            Err(v) => Err(v),
        }
    }

    /// One outer round: for rows, then columns, then boxes, naked-subset
    /// elimination followed by naked-single elimination, each checked.
    /// Returns the number of candidates removed in the round; a round that
    /// removes nothing leaves a board that no further pass changes.
    pub fn round(&mut self, trace: &mut Vec<Vec<Vec<u8>>>) -> (r: Result<usize, Violation>)
        requires
            old(self).wf(),
        ensures
            final(self).wf(),
            0 <= total(final(self).board@) <= total(old(self).board@) <= 729,
            shrunk(old(self).board@, final(self).board@),
            r is Err ==> !consistent(final(self).board@),
            r matches Ok(n) ==> n == total(old(self).board@) - total(final(self).board@)
                && consistent(final(self).board@),
            keeps_solutions(old(self).board@, final(self).board@),
            extends(final(trace)@, old(trace)@),
            r is Ok ==> round_done(old(self).board@, final(self).board@),
            r matches Ok(n) ==> (n == 0 ==> stable(final(self).board@)),
    {
        let rows = self.rows();
        let cols = self.cols();
        let boxes = self.groups();
        proof {
            lemma_rows_ok(rows@);
            lemma_cols_ok(cols@);
            lemma_boxes_ok(boxes@);
            lemma_total_bound(self.board@);
            assert forall|g: int| 0 <= g < 9 implies (#[trigger] rows@[g])@ == row_seq(g) by {
                assert(rows@[g]@ =~= row_seq(g));
            }
            assert forall|g: int| 0 <= g < 9 implies (#[trigger] cols@[g])@ == col_seq(g) by {
                assert(cols@[g]@ =~= col_seq(g));
            }
            assert forall|g: int| 0 <= g < 9 implies (#[trigger] boxes@[g])@ == box_seq(g) by {
                assert(boxes@[g]@ =~= box_seq(g));
            }
        }
        let ghost b0 = self.board@;
        let ghost p0 = self.board@;
        let ghost t0 = trace@;
        assert(extends(t0, t0));
        proof {
            shrunk_refl(b0);
            keeps_solutions_refl(b0);
        }
        let mut removed: usize = 0;
        let ghost tb = trace@;
        match self.run_pass(&rows, true, trace) {
            Ok(n) => {
                removed = removed + n;
            },
            Err(v) => {
                proof {
                    shrunk_trans(b0, p0, self.board@);
                    keeps_solutions_step(b0, p0, self.board@, rows@);
                    lemma_extends_trans(trace@, tb, t0);
                }
                return Err(v);
            },
        }
        let ghost p1 = self.board@;
        proof {
            shrunk_trans(b0, p0, p1);
            keeps_solutions_step(b0, p0, p1, rows@);
            pass_step_from(p0, p1, 0, true, rows@);
            lemma_extends_trans(trace@, tb, t0);
        }
        let ghost tb = trace@;
        match self.run_pass(&rows, false, trace) {
            Ok(n) => {
                removed = removed + n;
            },
            Err(v) => {
                proof {
                    shrunk_trans(b0, p1, self.board@);
                    keeps_solutions_step(b0, p1, self.board@, rows@);
                    lemma_extends_trans(trace@, tb, t0);
                }
                return Err(v);
            },
        }
        let ghost p2 = self.board@;
        proof {
            shrunk_trans(b0, p1, p2);
            keeps_solutions_step(b0, p1, p2, rows@);
            pass_step_from(p1, p2, 0, false, rows@);
            lemma_extends_trans(trace@, tb, t0);
        }
        let ghost tb = trace@;
        match self.run_pass(&cols, true, trace) {
            Ok(n) => {
                removed = removed + n;
            },
            Err(v) => {
                proof {
                    shrunk_trans(b0, p2, self.board@);
                    keeps_solutions_step(b0, p2, self.board@, cols@);
                    lemma_extends_trans(trace@, tb, t0);
                }
                return Err(v);
            },
        }
        let ghost p3 = self.board@;
        proof {
            shrunk_trans(b0, p2, p3);
            keeps_solutions_step(b0, p2, p3, cols@);
            pass_step_from(p2, p3, 1, true, cols@);
            lemma_extends_trans(trace@, tb, t0);
        }
        let ghost tb = trace@;
        match self.run_pass(&cols, false, trace) {
            Ok(n) => {
                removed = removed + n;
            },
            Err(v) => {
                proof {
                    shrunk_trans(b0, p3, self.board@);
                    keeps_solutions_step(b0, p3, self.board@, cols@);
                    lemma_extends_trans(trace@, tb, t0);
                }
                return Err(v);
            },
        }
        let ghost p4 = self.board@;
        proof {
            shrunk_trans(b0, p3, p4);
            keeps_solutions_step(b0, p3, p4, cols@);
            pass_step_from(p3, p4, 1, false, cols@);
            lemma_extends_trans(trace@, tb, t0);
        }
        let ghost tb = trace@;
        match self.run_pass(&boxes, true, trace) {
            Ok(n) => {
                removed = removed + n;
            },
            Err(v) => {
                proof {
                    shrunk_trans(b0, p4, self.board@);
                    keeps_solutions_step(b0, p4, self.board@, boxes@);
                    lemma_extends_trans(trace@, tb, t0);
                }
                return Err(v);
            },
        }
        let ghost p5 = self.board@;
        proof {
            shrunk_trans(b0, p4, p5);
            keeps_solutions_step(b0, p4, p5, boxes@);
            pass_step_from(p4, p5, 2, true, boxes@);
            lemma_extends_trans(trace@, tb, t0);
        }
        let ghost tb = trace@;
        match self.run_pass(&boxes, false, trace) {
            Ok(n) => {
                removed = removed + n;
            },
            Err(v) => {
                proof {
                    shrunk_trans(b0, p5, self.board@);
                    keeps_solutions_step(b0, p5, self.board@, boxes@);
                    lemma_extends_trans(trace@, tb, t0);
                }
                return Err(v);
            },
        }
        let ghost p6 = self.board@;
        proof {
            shrunk_trans(b0, p5, p6);
            keeps_solutions_step(b0, p5, p6, boxes@);
            pass_step_from(p5, p6, 2, false, boxes@);
            lemma_extends_trans(trace@, tb, t0);
        }
        proof {
            if removed == 0 {
                quiet_round_is_stable(p0, p1, p2, p3, p4, p5, p6, rows@, cols@, boxes@);
            }
            round_done_from(p0, p1, p2, p3, p4, p5, p6);
        }
        Ok(removed)
    }

    /// Repeats rounds until one removes nothing. Returns the number of
    /// candidates removed in all, which is at most `81 * 9` less the
    /// candidates left.
    pub fn solve(&mut self, trace: &mut Vec<Vec<Vec<u8>>>) -> (r: Result<usize, Violation>)
        requires
            old(self).wf(),
        ensures
            final(self).wf(),
            shrunk(old(self).board@, final(self).board@),
            keeps_solutions(old(self).board@, final(self).board@),
            r is Err ==> !consistent(final(self).board@),
            r matches Ok(n) ==> n == total(old(self).board@) - total(final(self).board@)
                && n <= 729 - total(final(self).board@)
                && consistent(final(self).board@)
                && stable(final(self).board@),
            r matches Ok(n) ==> (forall|i: int| 0 <= i < 81 ==> (#[trigger] final(self).board@[i]).options@.len() >= 1)
                ==> n <= 648,
            r is Ok ==> exists|hist: Seq<Seq<Cell>>| #[trigger] rounds_to_fixed_point(hist, old(self).board@, final(self).board@),
            extends(final(trace)@, old(trace)@),
    {
        proof {
            lemma_total_bound(self.board@);
        }
        let ghost b0 = self.board@;
        proof {
            shrunk_refl(b0);
            keeps_solutions_refl(b0);
        }
        let ghost t0 = trace@;
        let ghost mut hist: Seq<Seq<Cell>> = seq![b0];
        assert(extends(t0, t0));
        let mut removed: usize = 0;
        loop
            invariant
                self.wf(),
                b0 == old(self).board@,
                extends(trace@, t0),
                t0 == old(trace)@,
                hist.len() >= 1,
                hist[0] == b0,
                hist.last() == self.board@,
                forall|j: int| 0 <= j < hist.len() - 1 ==> #[trigger] history_step(hist, j),
                0 <= total(self.board@) <= total(b0) <= 729,
                removed == total(b0) - total(self.board@),
                shrunk(b0, self.board@),
                keeps_solutions(b0, self.board@),
            decreases total(self.board@),
        {
            let ghost prev = self.board@;
            let ghost tb = trace@;
            let res = self.round(trace);
            proof {
                lemma_extends_trans(trace@, tb, t0);
                shrunk_trans(b0, prev, self.board@);
                assert forall|sol: Seq<u8>| fits(b0, sol) && layout_ok(sol) implies #[trigger] fits(self.board@, sol) by {
                    assert(fits(prev, sol));
                }
            }
            match res {
                Ok(n) => {
                    proof {
                        let old_hist = hist;
                        hist = hist.push(self.board@);
                        assert forall|j: int| 0 <= j < hist.len() - 1 implies #[trigger] history_step(hist, j) by {
                            if j < old_hist.len() - 1 {
                                assert(history_step(old_hist, j));
                                assert(hist[j] == old_hist[j] && hist[j + 1] == old_hist[j + 1]);
                            } else {
                                assert(hist[j] == prev && hist[j + 1] == self.board@);
                            }
                        }
                    }
                    removed = removed + n;
                    if n == 0 {
                        proof {
                            assert(hist[hist.len() - 2] == prev);
                            assert(rounds_to_fixed_point(hist, b0, self.board@));
                        }
                        proof {
                            if forall|i: int| 0 <= i < 81 ==> (#[trigger] self.board@[i]).options@.len() >= 1 {
                                total_lower(self.board@);
                            }
                        }
                        return Ok(removed);
                    }
                },
                Err(v) => {
                    return Err(v);
                },
            }
        }
    }
}

} // verus!
