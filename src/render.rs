use vstd::prelude::*;
use crate::cell::{Cell, index_of};
use crate::puzzle::Puzzle;

verus! {

/// What a cell shows in the slot of digit `d`: the digit while it is a
/// candidate, a blank otherwise.
pub open spec fn glyph(c: Cell, d: int) -> u8 {
    if c.cands().contains(d as u8) {
        (48 + d) as u8
    } else {
        32u8
    }
}

/// `+---+---+...+---+`
pub open spec fn sep_line() -> Seq<u8> {
    Seq::new(37, |x: int| if x % 4 == 0 { 43u8 } else { 45u8 })
}

/// Text line `t` (0, 1 or 2) of board row `row`: for each cell a `|` and the
/// slots of digits `3t+1 ..= 3t+3`, closed by a final `|`.
pub open spec fn cell_line(b: Seq<Cell>, row: int, t: int) -> Seq<u8> {
    Seq::new(37, |x: int| if x % 4 == 0 { 124u8 } else { glyph(b[index_of(row, x / 4)], 3 * t + x % 4) })
}

/// Line `l` of the picture of board `b`.
pub open spec fn picture_line(b: Seq<Cell>, l: int) -> Seq<u8> {
    if l % 4 == 0 {
        sep_line()
    } else {
        cell_line(b, l / 4, l % 4 - 1)
    }
}

/// `lines` is the picture of board `b`.
pub open spec fn shows(lines: Seq<Vec<u8>>, b: Seq<Cell>) -> bool {
    lines.len() == 37 && forall|l: int| 0 <= l < 37 ==> (#[trigger] lines[l])@ == picture_line(b, l)
}

pub fn glyph_of(c: &Cell, d: u8) -> (r: u8)
    requires
        1 <= d <= 9,
    ensures
        r == glyph(*c, d as int),
{
    if c.has_option(d) {
        48 + d
    } else {
        32
    }
}

impl Puzzle {
    fn separator() -> (r: Vec<u8>)
        ensures
            r@ == sep_line(),
    {
        let mut line: Vec<u8> = Vec::new();
        let mut x: usize = 0;
        while x < 37
            invariant
                x <= 37,
                line@ == sep_line().take(x as int),
            decreases 37 - x,
        {
            if x % 4 == 0 {
                line.push(43);
            } else {
                line.push(45);
            }
            assert(sep_line().take(x + 1) =~= sep_line().take(x as int).push(line@[x as int]));
            x = x + 1;
        }
        assert(sep_line().take(37) =~= sep_line());
        line
    }

    fn text_line(&self, row: usize, t: u8) -> (r: Vec<u8>)
        requires
            self.wf(),
            row < 9,
            t < 3,
        ensures
            r@ == cell_line(self.board@, row as int, t as int),
    {
        let mut line: Vec<u8> = Vec::new();
        let mut x: usize = 0;
        while x < 37
            invariant
                x <= 37,
                row < 9,
                t < 3,
                self.wf(),
                line@ == cell_line(self.board@, row as int, t as int).take(x as int),
            decreases 37 - x,
        {
            if x % 4 == 0 {
                line.push(124);
            } else {
                let ix = row * 9 + x / 4;
                let v = glyph_of(&self.board[ix], 3 * t + (x % 4) as u8);
                line.push(v);
            }
            assert(cell_line(self.board@, row as int, t as int).take(x + 1) =~= cell_line(
                self.board@,
                row as int,
                t as int,
            ).take(x as int).push(line@[x as int]));
            x = x + 1;
        }
        assert(cell_line(self.board@, row as int, t as int).take(37) =~= cell_line(self.board@, row as int, t as int));
        line
    }

    /// The board as 37 lines of ASCII: each cell is a 3x3 block of digit
    /// slots, framed by `+---+` rules and `|` bars.
    pub fn render(&self) -> (r: Vec<Vec<u8>>)
        requires
            self.wf(),
        ensures
            shows(r@, self.board@),
    {
        let mut lines: Vec<Vec<u8>> = Vec::new();
        let mut row: usize = 0;
        while row < 9
            invariant
                row <= 9,
                self.wf(),
                lines@.len() == 4 * row,
                forall|l: int| 0 <= l < 4 * row ==> (#[trigger] lines@[l])@ == picture_line(self.board@, l),
            decreases 9 - row,
        {
            lines.push(Self::separator());
            let mut t: u8 = 0;
            while t < 3
                invariant
                    row < 9,
                    t <= 3,
                    self.wf(),
                    lines@.len() == 4 * row + 1 + t,
                    forall|l: int| 0 <= l < 4 * row + 1 + t ==> (#[trigger] lines@[l])@ == picture_line(self.board@, l),
                decreases 3 - t,
            {
                let line = self.text_line(row, t);
                lines.push(line);
                t = t + 1;
            }
            row = row + 1;
        }
        lines.push(Self::separator());
        lines
    }
}

} // verus!
