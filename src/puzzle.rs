use vstd::prelude::*;
use crate::cell::{Cell, Pos, from_pos, index_of, is_digit};

verus! {

/// An 81-cell board, addressed by linear index `row * 9 + col`.
pub struct Puzzle {
    pub board: Vec<Cell>,
}

/// Index `k` of row `g`.
pub open spec fn row_index(g: int, k: int) -> int {
    index_of(g, k)
}

/// Index `k` of column `g`.
pub open spec fn col_index(g: int, k: int) -> int {
    index_of(k, g)
}

/// Index `k` (row-major inside the block) of 3x3 box `g` (row-major over boxes).
pub open spec fn box_index(g: int, k: int) -> int {
    index_of((g / 3) * 3 + k / 3, (g % 3) * 3 + k % 3)
}

/// The position of linear index `i`.
pub open spec fn cell_pos(i: int) -> Pos {
    Pos { row: (i / 9) as usize, col: (i % 9) as usize }
}

/// Nine groups of nine in-range indices, no index used twice over the family.
pub open spec fn family_ok(f: Seq<Vec<usize>>) -> bool {
    &&& forall|g: int| 0 <= g < f.len() ==> (#[trigger] f[g])@.len() == 9
    &&& forall|g: int, k: int| 0 <= g < f.len() && 0 <= k < 9 ==> #[trigger] f[g]@[k] < 81
    &&& forall|g1: int, k1: int, g2: int, k2: int|
        0 <= g1 < f.len() && 0 <= k1 < 9 && 0 <= g2 < f.len() && 0 <= k2 < 9 && #[trigger] f[g1]@[k1]
            == #[trigger] f[g2]@[k2] ==> g1 == g2 && k1 == k2
}

/// Every digit is a candidate of some cell of the group.
pub open spec fn covers(b: Seq<Cell>, grp: Seq<usize>) -> bool {
    forall|d: u8| #[trigger] is_digit(d) ==> exists|k: int| 0 <= k < grp.len() && (#[trigger] b[grp[k] as int]).cands().contains(d)
}


pub open spec fn row_seq(g: int) -> Seq<usize> {
    Seq::new(9, |k: int| row_index(g, k) as usize)
}

pub open spec fn col_seq(g: int) -> Seq<usize> {
    Seq::new(9, |k: int| col_index(g, k) as usize)
}

pub open spec fn box_seq(g: int) -> Seq<usize> {
    Seq::new(9, |k: int| box_index(g, k) as usize)
}

/// All 27 groups (rows, then columns, then boxes) still cover every digit.
pub open spec fn consistent(b: Seq<Cell>) -> bool {
    forall|g: int| 0 <= g < 9 ==> covers(b, #[trigger] row_seq(g)) && covers(b, col_seq(g)) && covers(b, box_seq(g))
}

/// A group whose cells no longer hold every digit between them.
pub struct Violation {
    pub group: Vec<usize>,
}

proof fn lemma_digits_inj(a1: int, b1: int, a2: int, b2: int, m: int)
    requires
        0 <= b1 < m,
        0 <= b2 < m,
        a1 * m + b1 == a2 * m + b2,
    ensures
        a1 == a2,
        b1 == b2,
{
    assert(a1 == a2) by (nonlinear_arith)
        requires
            0 <= b1 < m,
            0 <= b2 < m,
            a1 * m + b1 == a2 * m + b2,
    ;
}

/// The rows partition the board.
pub proof fn lemma_rows_ok(f: Seq<Vec<usize>>)
    requires
        f.len() == 9,
        forall|g: int| 0 <= g < 9 ==> (#[trigger] f[g])@.len() == 9,
        forall|g: int, k: int| 0 <= g < 9 && 0 <= k < 9 ==> #[trigger] f[g]@[k] == row_index(g, k),
    ensures
        family_ok(f),
{
    assert forall|g1: int, k1: int, g2: int, k2: int|
        0 <= g1 < f.len() && 0 <= k1 < 9 && 0 <= g2 < f.len() && 0 <= k2 < 9 && #[trigger] f[g1]@[k1]
            == #[trigger] f[g2]@[k2] implies g1 == g2 && k1 == k2 by {
        lemma_digits_inj(g1, k1, g2, k2, 9);
    }
}

/// The columns partition the board.
pub proof fn lemma_cols_ok(f: Seq<Vec<usize>>)
    requires
        f.len() == 9,
        forall|g: int| 0 <= g < 9 ==> (#[trigger] f[g])@.len() == 9,
        forall|g: int, k: int| 0 <= g < 9 && 0 <= k < 9 ==> #[trigger] f[g]@[k] == col_index(g, k),
    ensures
        family_ok(f),
{
    assert forall|g1: int, k1: int, g2: int, k2: int|
        0 <= g1 < f.len() && 0 <= k1 < 9 && 0 <= g2 < f.len() && 0 <= k2 < 9 && #[trigger] f[g1]@[k1]
            == #[trigger] f[g2]@[k2] implies g1 == g2 && k1 == k2 by {
        lemma_digits_inj(k1, g1, k2, g2, 9);
    }
}

/// The boxes partition the board.
pub proof fn lemma_boxes_ok(f: Seq<Vec<usize>>)
    requires
        f.len() == 9,
        forall|g: int| 0 <= g < 9 ==> (#[trigger] f[g])@.len() == 9,
        forall|g: int, k: int| 0 <= g < 9 && 0 <= k < 9 ==> #[trigger] f[g]@[k] == box_index(g, k),
    ensures
        family_ok(f),
{
    assert forall|g: int, k: int| 0 <= g < 9 && 0 <= k < 9 implies #[trigger] f[g]@[k] < 81 by {
        assert(0 <= (g / 3) * 3 + k / 3 < 9);
        assert(0 <= (g % 3) * 3 + k % 3 < 9);
        assert(box_index(g, k) < 81) by (nonlinear_arith)
            requires
                box_index(g, k) == ((g / 3) * 3 + k / 3) * 9 + (g % 3) * 3 + k % 3,
                0 <= (g / 3) * 3 + k / 3 < 9,
                0 <= (g % 3) * 3 + k % 3 < 9,
        ;
    }
    assert forall|g1: int, k1: int, g2: int, k2: int|
        0 <= g1 < f.len() && 0 <= k1 < 9 && 0 <= g2 < f.len() && 0 <= k2 < 9 && #[trigger] f[g1]@[k1]
            == #[trigger] f[g2]@[k2] implies g1 == g2 && k1 == k2 by {
        lemma_digits_inj((g1 / 3) * 3 + k1 / 3, (g1 % 3) * 3 + k1 % 3, (g2 / 3) * 3 + k2 / 3, (g2 % 3) * 3 + k2 % 3, 9);
        lemma_digits_inj(g1 / 3, k1 / 3, g2 / 3, k2 / 3, 3);
        lemma_digits_inj(g1 % 3, k1 % 3, g2 % 3, k2 % 3, 3);
    }
}

impl Puzzle {
    /// Every cell is well formed and sits at the position of its index.
    pub open spec fn wf(&self) -> bool {
        &&& self.board@.len() == 81
        &&& forall|i: int| 0 <= i < 81 ==> (#[trigger] self.board@[i]).wf()
        &&& forall|i: int| 0 <= i < 81 ==> (#[trigger] self.board@[i]).pos == cell_pos(i)
    }

    pub fn rows(&self) -> (r: Vec<Vec<usize>>)
        ensures
            r@.len() == 9,
            forall|g: int| 0 <= g < 9 ==> (#[trigger] r@[g])@.len() == 9,
            forall|g: int, k: int| 0 <= g < 9 && 0 <= k < 9 ==> #[trigger] r@[g]@[k] == row_index(g, k),
    {
        let mut rows: Vec<Vec<usize>> = Vec::new();
        let mut row_i: usize = 0;
        while row_i < 9
            invariant
                row_i <= 9,
                rows@.len() == row_i,
                forall|g: int| 0 <= g < row_i ==> (#[trigger] rows@[g])@.len() == 9,
                forall|g: int, k: int| 0 <= g < row_i && 0 <= k < 9 ==> #[trigger] rows@[g]@[k] == row_index(g, k),
            decreases 9 - row_i,
        {
            let mut line: Vec<usize> = Vec::new();
            let mut col_i: usize = 0;
            while col_i < 9
                invariant
                    row_i < 9,
                    col_i <= 9,
                    line@.len() == col_i,
                    forall|k: int| 0 <= k < col_i ==> #[trigger] line@[k] == row_index(row_i as int, k),
                decreases 9 - col_i,
            {
                line.push(from_pos(Pos { row: row_i, col: col_i }));
                col_i = col_i + 1;
            }
            rows.push(line);
            row_i = row_i + 1;
        }
        rows
    }

    pub fn cols(&self) -> (r: Vec<Vec<usize>>)
        ensures
            r@.len() == 9,
            forall|g: int| 0 <= g < 9 ==> (#[trigger] r@[g])@.len() == 9,
            forall|g: int, k: int| 0 <= g < 9 && 0 <= k < 9 ==> #[trigger] r@[g]@[k] == col_index(g, k),
    {
        let mut cols: Vec<Vec<usize>> = Vec::new();
        let mut col_i: usize = 0;
        while col_i < 9
            invariant
                col_i <= 9,
                cols@.len() == col_i,
                forall|g: int| 0 <= g < col_i ==> (#[trigger] cols@[g])@.len() == 9,
                forall|g: int, k: int| 0 <= g < col_i && 0 <= k < 9 ==> #[trigger] cols@[g]@[k] == col_index(g, k),
            decreases 9 - col_i,
        {
            let mut line: Vec<usize> = Vec::new();
            let mut row_i: usize = 0;
            while row_i < 9
                invariant
                    col_i < 9,
                    row_i <= 9,
                    line@.len() == row_i,
                    forall|k: int| 0 <= k < row_i ==> #[trigger] line@[k] == col_index(col_i as int, k),
                decreases 9 - row_i,
            {
                line.push(from_pos(Pos { row: row_i, col: col_i }));
                row_i = row_i + 1;
            }
            cols.push(line);
            col_i = col_i + 1;
        }
        cols
    }

    pub fn groups(&self) -> (r: Vec<Vec<usize>>)
        ensures
            r@.len() == 9,
            forall|g: int| 0 <= g < 9 ==> (#[trigger] r@[g])@.len() == 9,
            forall|g: int, k: int| 0 <= g < 9 && 0 <= k < 9 ==> #[trigger] r@[g]@[k] == box_index(g, k),
    {
        let mut groups: Vec<Vec<usize>> = Vec::new();
        let mut i: usize = 0;
        while i < 3
            invariant
                i <= 3,
                groups@.len() == 3 * i,
                forall|g: int| 0 <= g < 3 * i ==> (#[trigger] groups@[g])@.len() == 9,
                forall|g: int, k: int| 0 <= g < 3 * i && 0 <= k < 9 ==> #[trigger] groups@[g]@[k] == box_index(g, k),
            decreases 3 - i,
        {
            let mut j: usize = 0;
            while j < 3
                invariant
                    i < 3,
                    j <= 3,
                    groups@.len() == 3 * i + j,
                    forall|g: int| 0 <= g < 3 * i + j ==> (#[trigger] groups@[g])@.len() == 9,
                    forall|g: int, k: int| 0 <= g < 3 * i + j && 0 <= k < 9 ==> #[trigger] groups@[g]@[k] == box_index(g, k),
                decreases 3 - j,
            {
                let mut group: Vec<usize> = Vec::new();
                let mut x: usize = 0;
                while x < 3
                    invariant
                        i < 3,
                        j < 3,
                        x <= 3,
                        group@.len() == 3 * x,
                        forall|k: int| 0 <= k < 3 * x ==> #[trigger] group@[k] == box_index(3 * i + j, k),
                    decreases 3 - x,
                {
                    let mut y: usize = 0;
                    while y < 3
                        invariant
                            i < 3,
                            j < 3,
                            x < 3,
                            y <= 3,
                            group@.len() == 3 * x + y,
                            forall|k: int| 0 <= k < 3 * x + y ==> #[trigger] group@[k] == box_index(3 * i + j, k),
                        decreases 3 - y,
                    {
                        let ix = from_pos(Pos { row: i * 3 + x, col: j * 3 + y });
                        proof {
                            let g = 3 * i + j;
                            let k = 3 * x + y;
                            assert(g / 3 == i && g % 3 == j) by (nonlinear_arith)
                                requires g == 3 * i + j, j < 3, i < 3;
                            assert(k / 3 == x && k % 3 == y) by (nonlinear_arith)
                                requires k == 3 * x + y, y < 3, x < 3;
                        }
                        group.push(ix);
                        y = y + 1;
                    }
                    x = x + 1;
                }
                groups.push(group);
                j = j + 1;
            }
            i = i + 1;
        }
        groups
    }

    /// Whether the cells at `ixs` still hold every digit between them.
    pub fn verify_friends(&self, ixs: &Vec<usize>) -> (r: bool)
        requires
            self.wf(),
            forall|k: int| 0 <= k < ixs@.len() ==> #[trigger] ixs@[k] < 81,
        ensures
            r == covers(self.board@, ixs@),
    {
        let mut d: u8 = 1;
        while d <= 9
            invariant
                1 <= d <= 10,
                self.wf(),
                forall|k: int| 0 <= k < ixs@.len() ==> #[trigger] ixs@[k] < 81,
                forall|e: u8| #[trigger] is_digit(e) && e < d ==> exists|k: int| 0 <= k < ixs@.len() && (#[trigger] self.board@[ixs@[k] as int]).cands().contains(e),
            decreases 10 - d,
        {
            let mut found = false;
            let mut k: usize = 0;
            while k < ixs.len()
                invariant
                    k <= ixs@.len(),
                    self.wf(),
                    forall|k2: int| 0 <= k2 < ixs@.len() ==> #[trigger] ixs@[k2] < 81,
                    found ==> exists|k2: int| 0 <= k2 < ixs@.len() && (#[trigger] self.board@[ixs@[k2] as int]).cands().contains(d),
                    !found ==> forall|k2: int| 0 <= k2 < k ==> !(#[trigger] self.board@[ixs@[k2] as int]).cands().contains(d),
                decreases ixs@.len() - k,
            {
                if !found && self.board[ixs[k]].has_option(d) {
                    found = true;
                }
                k = k + 1;
            }
            if !found {
                assert(is_digit(d));
                return false;
            }
            d = d + 1;
        }
        assert forall|e: u8| #[trigger] is_digit(e) implies exists|k: int| 0 <= k < ixs@.len() && (#[trigger] self.board@[ixs@[k] as int]).cands().contains(e) by {
            assert(e < d);
        }
        true
    }

    /// Checks all 27 groups; on failure hands back one group that lost a digit.
    pub fn verify_state(&self) -> (r: Result<(), Violation>)
        requires
            self.wf(),
        ensures
            r is Ok <==> consistent(self.board@),
            r matches Err(v) ==> exists|g: int| 0 <= g < 9 && (v.group@ == row_seq(g) || v.group@ == col_seq(g) || v.group@ == box_seq(g))
                && !covers(self.board@, v.group@),
    {
        let mut rows = self.rows();
        let mut cols = self.cols();
        let mut boxes = self.groups();
        proof {
            lemma_rows_ok(rows@);
            lemma_cols_ok(cols@);
            lemma_boxes_ok(boxes@);
            assert forall|g: int| 0 <= g < 9 implies (#[trigger] rows@[g])@ == row_seq(g) by {
                assert(rows@[g]@ =~= row_seq(g));
            }
            assert forall|g: int| 0 <= g < 9 implies (#[trigger] cols@[g])@ == col_seq(g) by {
                assert(cols@[g]@ =~= col_seq(g));
            }
            assert forall|g: int| 0 <= g < 9 implies (#[trigger] boxes@[g])@ == box_seq(g) by {
                assert(boxes@[g]@ =~= box_seq(g));
            }
        }
        let mut g: usize = 0;
        while g < 9
            invariant
                g <= 9,
                self.wf(),
                rows@.len() == 9 && cols@.len() == 9 && boxes@.len() == 9,
                family_ok(rows@) && family_ok(cols@) && family_ok(boxes@),
                forall|g2: int| 0 <= g2 < 9 ==> (#[trigger] rows@[g2])@ == row_seq(g2),
                forall|g2: int| 0 <= g2 < 9 ==> (#[trigger] cols@[g2])@ == col_seq(g2),
                forall|g2: int| 0 <= g2 < 9 ==> (#[trigger] boxes@[g2])@ == box_seq(g2),
                forall|g2: int| 0 <= g2 < g ==> covers(self.board@, #[trigger] row_seq(g2)) && covers(self.board@, col_seq(g2)) && covers(self.board@, box_seq(g2)),
            decreases 9 - g,
        {
            assert(rows@[g as int]@ == row_seq(g as int));
            assert(cols@[g as int]@ == col_seq(g as int));
            assert(boxes@[g as int]@ == box_seq(g as int));
            assert forall|k: int| 0 <= k < 9 implies #[trigger] rows@[g as int]@[k] < 81 && cols@[g as int]@[k] < 81 && boxes@[g as int]@[k] < 81 by {}
            if !self.verify_friends(&rows[g]) {
                return Err(Violation { group: rows.remove(g) });
            }
            if !self.verify_friends(&cols[g]) {
                return Err(Violation { group: cols.remove(g) });
            }
            if !self.verify_friends(&boxes[g]) {
                return Err(Violation { group: boxes.remove(g) });
            }
            g = g + 1;
        }
        assert forall|g2: int| 0 <= g2 < 9 implies covers(self.board@, #[trigger] row_seq(g2)) && covers(self.board@, col_seq(g2)) && covers(self.board@, box_seq(g2)) by {
            assert(g2 < g);
        }
        Ok(())
    }
}

} // verus!
