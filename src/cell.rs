use vstd::prelude::*;

verus! {

/// A board coordinate; both components lie in `0..9` on a real board.
#[derive(Clone, Copy, Debug, PartialEq, Eq, Structural)]
pub struct Pos {
    pub row: usize,
    pub col: usize,
}

/// A board square together with the digits that may still be placed there.
///
/// The candidates are kept strictly increasing, so two cells hold the same
/// candidate set exactly when their vectors are equal.
#[derive(Debug)]
pub struct Cell {
    pub pos: Pos,
    pub options: Vec<u8>,
}

pub open spec fn is_digit(d: u8) -> bool {
    1 <= d <= 9
}

/// Strictly increasing digits in `1..=9`.
pub open spec fn sorted_digits(s: Seq<u8>) -> bool {
    &&& forall|i: int| 0 <= i < s.len() ==> #[trigger] is_digit(s[i])
    &&& forall|i: int, j: int| 0 <= i < j < s.len() ==> s[i] < s[j]
}

/// The nine digits, in order.
pub open spec fn all_digits() -> Set<u8> {
    Set::new(|d: u8| is_digit(d))
}

pub proof fn lemma_sorted_no_dup(s: Seq<u8>)
    requires
        sorted_digits(s),
    ensures
        s.no_duplicates(),
        s.to_set().len() == s.len(),
        s.to_set().finite(),
{
    assert forall|i: int, j: int| 0 <= i < s.len() && 0 <= j < s.len() && i != j implies s[i]
        != s[j] by {
        if i < j {
        } else {
        }
    }
    s.unique_seq_to_set();
    vstd::seq_lib::seq_to_set_is_finite(s);
}

/// Two strictly increasing sequences with the same elements are the same sequence.
pub proof fn lemma_sorted_set_eq(a: Seq<u8>, b: Seq<u8>)
    requires
        sorted_digits(a),
        sorted_digits(b),
        a.to_set() == b.to_set(),
    ensures
        a == b,
    decreases a.len(),
{
    lemma_sorted_no_dup(a);
    lemma_sorted_no_dup(b);
    if a.len() == 0 {
        assert(b.len() == 0);
        assert(a =~= b);
    } else {
        assert(b.len() > 0);
        assert(a.to_set().contains(a[0]));
        assert(b.to_set().contains(a[0]));
        assert(b.to_set().contains(b[0]));
        assert(a.to_set().contains(b[0]));
        let i = choose|i: int| 0 <= i < b.len() && b[i] == a[0];
        let j = choose|j: int| 0 <= j < a.len() && a[j] == b[0];
        assert(a[0] == b[0]) by {
            if i > 0 {
                assert(b[0] < b[i]);
            }
            if j > 0 {
                assert(a[0] < a[j]);
            }
        }
        let a1 = a.drop_first();
        let b1 = b.drop_first();
        assert(a1.to_set() =~= b1.to_set()) by {
            assert forall|x: u8| a1.to_set().contains(x) implies b1.to_set().contains(x) by {
                let k = choose|k: int| 0 <= k < a1.len() && a1[k] == x;
                assert(a[k + 1] == x);
                assert(a[0] < a[k + 1]);
                assert(b.to_set().contains(x));
                let m = choose|m: int| 0 <= m < b.len() && b[m] == x;
                assert(m != 0);
                assert(b1[m - 1] == x);
            }
            assert forall|x: u8| b1.to_set().contains(x) implies a1.to_set().contains(x) by {
                let k = choose|k: int| 0 <= k < b1.len() && b1[k] == x;
                assert(b[k + 1] == x);
                assert(b[0] < b[k + 1]);
                assert(a.to_set().contains(x));
                let m = choose|m: int| 0 <= m < a.len() && a[m] == x;
                assert(m != 0);
                assert(a1[m - 1] == x);
            }
        }
        lemma_sorted_set_eq(a1, b1);
        assert(a =~= seq![a[0]] + a1);
        assert(b =~= seq![b[0]] + b1);
    }
}

/// Removing one entry keeps a sequence strictly increasing, and removes exactly
/// that entry's value from its elements.
pub proof fn lemma_sorted_remove(s: Seq<u8>, p: int)
    requires
        sorted_digits(s),
        0 <= p < s.len(),
    ensures
        sorted_digits(s.remove(p)),
        s.remove(p).to_set() == s.to_set().remove(s[p]),
{
    lemma_sorted_no_dup(s);
    let t = s.remove(p);
    assert forall|i: int, j: int| 0 <= i < j < t.len() implies t[i] < t[j] by {
        if i < p && j >= p {
            assert(t[j] == s[j + 1]);
        } else if i >= p {
            assert(t[i] == s[i + 1] && t[j] == s[j + 1]);
        }
    }
    assert forall|i: int| 0 <= i < t.len() implies #[trigger] is_digit(t[i]) by {
        if i >= p {
            assert(t[i] == s[i + 1]);
        }
    }
    assert(t.to_set() =~= s.to_set().remove(s[p])) by {
        assert forall|x: u8| t.to_set().contains(x) implies s.to_set().remove(s[p]).contains(x) by {
            let k = choose|k: int| 0 <= k < t.len() && t[k] == x;
            if k < p {
                assert(s[k] == x);
            } else {
                assert(s[k + 1] == x);
            }
        }
        assert forall|x: u8| s.to_set().remove(s[p]).contains(x) implies t.to_set().contains(x) by {
            let k = choose|k: int| 0 <= k < s.len() && s[k] == x;
            if k < p {
                assert(t[k] == x);
            } else {
                assert(k != p);
                assert(t[k - 1] == x);
            }
        }
    }
}

/// Removal of the first entry equal to a given item.
pub trait VecExt<T> {
    fn remove_item(&mut self, item: &T) -> Option<T>;
}

impl VecExt<u8> for Vec<u8> {
    /// Removes the first entry equal to `item` and returns it; `None`, with
    /// the vector unchanged, when there is none.
    fn remove_item(&mut self, item: &u8) -> (r: Option<u8>)
        ensures
            r is None <==> !old(self)@.contains(*item),
            r is None ==> final(self)@ == old(self)@,
            r matches Some(x) ==> x == *item && exists|p: int|
                0 <= p < old(self)@.len() && #[trigger] old(self)@[p] == *item
                    && (forall|q: int| 0 <= q < p ==> old(self)@[q] != *item)
                    && final(self)@ == old(self)@.remove(p),
    {
        let mut i: usize = 0;
        while i < self.len()
            invariant
                i <= self@.len(),
                self@ == old(self)@,
                forall|q: int| 0 <= q < i ==> self@[q] != *item,
            decreases self@.len() - i,
        {
            if self[i] == *item {
                assert(old(self)@[i as int] == *item);
                return Some(self.remove(i));
            }
            i = i + 1;
        }
        None
    }
}

/// Whether `d` occurs in `v`.
fn holds_digit(v: &Vec<u8>, d: u8) -> (r: bool)
    ensures
        r == v@.contains(d),
{
    let mut i: usize = 0;
    while i < v.len()
        invariant
            i <= v@.len(),
            forall|k: int| 0 <= k < i ==> v@[k] != d,
        decreases v@.len() - i,
    {
        if v[i] == d {
            return true;
        }
        i = i + 1;
    }
    false
}

impl Cell {
    /// The candidate digits.
    pub open spec fn cands(&self) -> Set<u8> {
        self.options@.to_set()
    }

    pub open spec fn wf(&self) -> bool {
        sorted_digits(self.options@)
    }

    /// Resolved: exactly one candidate is left.
    pub open spec fn resolved(&self) -> bool {
        self.options@.len() == 1
    }

    /// A cell where every digit is still possible.
    pub fn all(pos: Pos) -> (r: Cell)
        ensures
            r.wf(),
            r.pos == pos,
            r.cands() == all_digits(),
            r.options@.len() == 9,
    {
        let mut options: Vec<u8> = Vec::new();
        let mut d: u8 = 1;
        while d <= 9
            invariant
                1 <= d <= 10,
                options@.len() == d - 1,
                forall|i: int| 0 <= i < options@.len() ==> options@[i] == i + 1,
            decreases 10 - d,
        {
            options.push(d);
            d = d + 1;
        }
        let r = Cell { pos, options };
        assert(r.cands() =~= all_digits()) by {
            assert forall|x: u8| all_digits().contains(x) implies r.cands().contains(x) by {
                assert(r.options@[x - 1] == x);
            }
        }
        r
    }

    /// A cell holding the given digit alone; `None` when `d` is not in `1..=9`.
    pub fn only(pos: Pos, d: u8) -> (r: Option<Cell>)
        ensures
            r is Some <==> is_digit(d),
            r matches Some(c) ==> c.wf() && c.pos == pos && c.options@ == seq![d],
    {
        if 1 <= d && d <= 9 {
            Some(Cell { pos, options: vec![d] })
        } else {
            None
        }
    }

    /// An independent copy of this cell.
    pub fn copy(&self) -> (r: Cell)
        ensures
            r.pos == self.pos,
            r.options@ == self.options@,
    {
        let mut options: Vec<u8> = Vec::new();
        let mut i: usize = 0;
        while i < self.options.len()
            invariant
                i <= self.options@.len(),
                options@ == self.options@.take(i as int),
            decreases self.options@.len() - i,
        {
            options.push(self.options[i]);
            assert(self.options@.take(i + 1) =~= self.options@.take(i as int).push(self.options@[i as int]));
            i = i + 1;
        }
        assert(self.options@.take(i as int) =~= self.options@);
        Cell { pos: self.pos, options }
    }

    pub fn is_single(&self) -> (r: bool)
        ensures
            r == self.resolved(),
    {
        self.options.len() == 1
    }

    /// The resolved digit, if there is one.
    pub fn get_single(&self) -> (r: Option<u8>)
        ensures
            r is Some <==> self.resolved(),
            r matches Some(d) ==> self.options@ == seq![d],
    {
        if self.is_single() {
            let d = self.options[0];
            assert(self.options@ =~= seq![d]);
            Some(d)
        } else {
            None
        }
    }

    pub fn has_option(&self, d: u8) -> (r: bool)
        ensures
            r == self.cands().contains(d),
    {
        let mut i: usize = 0;
        while i < self.options.len()
            invariant
                i <= self.options@.len(),
                forall|k: int| 0 <= k < i ==> self.options@[k] != d,
            decreases self.options@.len() - i,
        {
            if self.options[i] == d {
                assert(self.cands().contains(self.options@[i as int]));
                return true;
            }
            i = i + 1;
        }
        false
    }

    /// Whether this cell's candidates are exactly the digits of `vs`, in any
    /// order.
    pub fn has_exactly_options(&self, vs: &Vec<u8>) -> (r: bool)
        ensures
            r == (self.cands() == vs@.to_set()),
    {
        let mut i: usize = 0;
        while i < vs.len()
            invariant
                i <= vs@.len(),
                forall|k: int| 0 <= k < i ==> self.cands().contains(#[trigger] vs@[k]),
            decreases vs@.len() - i,
        {
            if !self.has_option(vs[i]) {
                assert(vs@.to_set().contains(vs@[i as int]));
                return false;
            }
            i = i + 1;
        }
        let mut j: usize = 0;
        while j < self.options.len()
            invariant
                j <= self.options@.len(),
                forall|k: int| 0 <= k < j ==> vs@.contains(#[trigger] self.options@[k]),
            decreases self.options@.len() - j,
        {
            if !holds_digit(vs, self.options[j]) {
                assert(self.cands().contains(self.options@[j as int]));
                return false;
            }
            j = j + 1;
        }
        assert(self.cands() =~= vs@.to_set()) by {
            assert forall|x: u8| vs@.to_set().contains(x) implies self.cands().contains(x) by {
                let k = choose|k: int| 0 <= k < vs@.len() && vs@[k] == x;
            }
            assert forall|x: u8| self.cands().contains(x) implies vs@.to_set().contains(x) by {
                let k = choose|k: int| 0 <= k < self.options@.len() && self.options@[k] == x;
            }
        }
        true
    }

    /// Removes `d` from the candidates if present; reports whether it was there.
    pub fn remove_item(&mut self, d: u8) -> (r: bool)
        requires
            old(self).wf(),
        ensures
            final(self).wf(),
            final(self).pos == old(self).pos,
            final(self).cands() == old(self).cands().remove(d),
            r == old(self).cands().contains(d),
            final(self).options@.len() == old(self).options@.len() - (if r { 1int } else { 0 }),
    {
        let ghost before = self.options@;
        match self.options.remove_item(&d) {
            Some(_) => {
                proof {
                    let p = choose|p: int|
                        0 <= p < before.len() && #[trigger] before[p] == d
                            && (forall|q: int| 0 <= q < p ==> before[q] != d)
                            && self.options@ == before.remove(p);
                    lemma_sorted_remove(before, p);
                }
                true
            },
            None => {
                assert(self.cands() =~= old(self).cands().remove(d));
                false
            },
        }
    }

    /// Naked-single step: drops digit `d` unless this cell is already resolved.
    pub fn remove_single(&mut self, d: u8) -> (r: bool)
        requires
            old(self).wf(),
        ensures
            final(self).wf(),
            final(self).pos == old(self).pos,
            final(self).cands() == (if old(self).resolved() {
                old(self).cands()
            } else {
                old(self).cands().remove(d)
            }),
            r == (!old(self).resolved() && old(self).cands().contains(d)),
            final(self).options@.len() == old(self).options@.len() - (if r { 1int } else { 0 }),
    {
        if self.is_single() {
            false
        } else {
            self.remove_item(d)
        }
    }

    /// Naked-subset step: drops every candidate of `multiple` unless this cell
    /// is already resolved; returns how many were dropped.
    pub fn remove_multiple(&mut self, multiple: &Cell) -> (r: usize)
        requires
            old(self).wf(),
            multiple.wf(),
        ensures
            final(self).wf(),
            final(self).pos == old(self).pos,
            final(self).cands() == (if old(self).resolved() {
                old(self).cands()
            } else {
                old(self).cands().difference(multiple.cands())
            }),
            r == old(self).options@.len() - final(self).options@.len(),
    {
        if self.is_single() {
            return 0;
        }
        let mut removed: usize = 0;
        let mut k: usize = 0;
        while k < multiple.options.len()
            invariant
                k <= multiple.options@.len(),
                self.wf(),
                self.pos == old(self).pos,
                multiple.wf(),
                !old(self).resolved(),
                old(self).wf(),
                self.cands() == old(self).cands().difference(multiple.options@.take(k as int).to_set()),
                removed == old(self).options@.len() - self.options@.len(),
                self.options@.len() <= old(self).options@.len(),
            decreases multiple.options@.len() - k,
        {
            let m = multiple.options[k];
            let hit = self.remove_item(m);
            if hit {
                assert(removed + 1 <= old(self).options.len());
                removed = removed + 1;
            }
            assert(multiple.options@.take(k + 1) =~= multiple.options@.take(k as int).push(m));
            proof {
                multiple.options@.take(k as int).lemma_push_to_set_commute(m);
            }
            assert(self.cands() =~= old(self).cands().difference(
                multiple.options@.take(k + 1).to_set(),
            ));
            k = k + 1;
        }
        assert(multiple.options@.take(k as int) =~= multiple.options@);
        removed
    }
}

/// Linear index of a position.
pub open spec fn index_of(row: int, col: int) -> int {
    row * 9 + col
}

pub fn from_pos(pos: Pos) -> (r: usize)
    requires
        pos.row < 9,
        pos.col < 9,
    ensures
        r == index_of(pos.row as int, pos.col as int),
        r < 81,
{
    pos.row * 9 + pos.col
}

pub fn to_pos(u: usize) -> (r: Pos)
    requires
        u < 81,
    ensures
        r.row < 9,
        r.col < 9,
        index_of(r.row as int, r.col as int) == u,
{
    Pos { row: u / 9, col: u % 9 }
}

} // verus!
