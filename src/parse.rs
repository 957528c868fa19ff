use vstd::prelude::*;
use crate::cell::{Cell, Pos, all_digits, index_of};
use crate::puzzle::{Puzzle, cell_pos};

verus! {

#[derive(Debug, PartialEq, Eq, Structural)]
pub enum ParseError {
    /// A character that is neither a digit `1`-`9` nor `x`.
    BadChar(char),
    /// The text is not nine lines of nine cells.
    BadShape,
}

pub open spec fn given_char(c: char) -> bool {
    '1' <= c <= '9'
}

pub open spec fn cell_char(c: char) -> bool {
    given_char(c) || c == 'x'
}

/// The digit a given character stands for.
pub open spec fn digit_of(c: char) -> u8 {
    (c as u32 - '0' as u32) as u8
}

/// The cell that character `c` describes.
pub open spec fn cell_matches(cell: Cell, c: char) -> bool {
    &&& cell.wf()
    &&& given_char(c) ==> cell.options@ == seq![digit_of(c)]
    &&& c == 'x' ==> cell.cands() == all_digits() && cell.options@.len() == 9
}

pub open spec fn shape_ok(lines: Seq<Vec<char>>) -> bool {
    lines.len() == 9 && forall|r: int| 0 <= r < 9 ==> (#[trigger] lines[r])@.len() == 9
}

/// Every character of the first `r` lines, and the first `k` of line `r`, is a cell character.
pub open spec fn good_before(lines: Seq<Vec<char>>, r: int, k: int) -> bool {
    &&& forall|r2: int, k2: int| 0 <= r2 < r && 0 <= k2 < lines[r2]@.len() ==> cell_char(#[trigger] lines[r2]@[k2])
    &&& forall|k2: int| 0 <= k2 < k ==> cell_char(#[trigger] lines[r]@[k2])
}

pub open spec fn all_good(lines: Seq<Vec<char>>) -> bool {
    good_before(lines, lines.len() as int, 0)
}

/// `c` stands at line `r`, column `k`, and is the first character that is not a cell character.
pub open spec fn first_bad(lines: Seq<Vec<char>>, c: char) -> bool {
    exists|r: int, k: int| 0 <= r < lines.len() && 0 <= k < lines[r]@.len() && #[trigger] lines[r]@[k] == c
        && !cell_char(c) && good_before(lines, r, k)
}

/// A cell from one character: a digit gives that digit alone, `x` gives all nine.
pub fn parse_char(pos: Pos, c: char) -> (r: Result<Cell, ParseError>)
    ensures
        r is Ok <==> cell_char(c),
        r matches Ok(cell) ==> cell_matches(cell, c) && cell.pos == pos,
        r matches Err(e) ==> e == ParseError::BadChar(c),
{
    if '1' <= c && c <= '9' {
        let d = (c as u32 - '0' as u32) as u8;
        match Cell::only(pos, d) {
            Some(cell) => Ok(cell),
            None => Err(ParseError::BadChar(c)),
        }
    } else if c == 'x' {
        Ok(Cell::all(pos))
    } else {
        Err(ParseError::BadChar(c))
    }
}

/// A board from nine lines of nine characters each. The first character, in
/// reading order, that is not a cell character is reported; otherwise a text
/// of the wrong shape is refused.
pub fn parse(lines: &Vec<Vec<char>>) -> (r: Result<Puzzle, ParseError>)
    ensures
        r is Ok <==> all_good(lines@) && shape_ok(lines@),
        r matches Ok(p) ==> p.wf() && forall|row: int, col: int| 0 <= row < 9 && 0 <= col < 9
            ==> cell_matches(#[trigger] p.board@[index_of(row, col)], lines@[row]@[col])
                && p.board@[index_of(row, col)].pos.row == row && p.board@[index_of(row, col)].pos.col == col,
        r matches Err(e) ==> match e {
            ParseError::BadChar(c) => first_bad(lines@, c),
            ParseError::BadShape => all_good(lines@) && !shape_ok(lines@),
        },
{
    let mut row: usize = 0;
    while row < lines.len()
        invariant
            row <= lines@.len(),
            good_before(lines@, row as int, 0),
        decreases lines@.len() - row,
    {
        let line = &lines[row];
        let mut col: usize = 0;
        while col < line.len()
            invariant
                row < lines@.len(),
                line == lines@[row as int],
                col <= line@.len(),
                good_before(lines@, row as int, col as int),
            decreases line@.len() - col,
        {
            let c = line[col];
            if !('1' <= c && c <= '9') && c != 'x' {
                return Err(ParseError::BadChar(c));
            }
            col = col + 1;
        }
        assert(good_before(lines@, row + 1, 0)) by {
            assert forall|r2: int, k2: int| 0 <= r2 < row + 1 && 0 <= k2 < lines@[r2]@.len() implies cell_char(#[trigger] lines@[r2]@[k2]) by {
                if r2 < row {
                } else {
                    assert(cell_char(lines@[row as int]@[k2]));
                }
            }
        }
        row = row + 1;
    }
    if lines.len() != 9 {
        return Err(ParseError::BadShape);
    }
    let mut row: usize = 0;
    while row < 9
        invariant
            row <= 9,
            lines@.len() == 9,
            all_good(lines@),
            forall|r: int| 0 <= r < row ==> (#[trigger] lines@[r])@.len() == 9,
        decreases 9 - row,
    {
        if lines[row].len() != 9 {
            return Err(ParseError::BadShape);
        }
        row = row + 1;
    }
    let mut board: Vec<Cell> = Vec::new();
    let mut i: usize = 0;
    while i < 81
        invariant
            i <= 81,
            shape_ok(lines@),
            all_good(lines@),
            board@.len() == i,
            forall|j: int| 0 <= j < i ==> cell_matches(#[trigger] board@[j], lines@[j / 9]@[j % 9]),
            forall|j: int| 0 <= j < i ==> (#[trigger] board@[j]).pos == cell_pos(j),
        decreases 81 - i,
    {
        let r = i / 9;
        let k = i % 9;
        assert(cell_char(lines@[r as int]@[k as int]));
        match parse_char(Pos { row: r, col: k }, lines[r][k]) {
            Ok(cell) => board.push(cell),
            Err(e) => return Err(e),
        }
        i = i + 1;
    }
    let p = Puzzle { board };
    assert forall|row: int, col: int| 0 <= row < 9 && 0 <= col < 9 implies cell_matches(#[trigger] p.board@[index_of(row, col)], lines@[row]@[col])
        && p.board@[index_of(row, col)].pos.row == row && p.board@[index_of(row, col)].pos.col == col by {
        let j = index_of(row, col);
        assert(j / 9 == row && j % 9 == col);
    }
    Ok(p)
}

} // verus!
