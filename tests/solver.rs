use dokudoku::cell::{from_pos, to_pos, Cell, Pos, VecExt};
use dokudoku::parse::{parse, parse_char, ParseError};
use dokudoku::puzzle::Puzzle;

const EASY: [&str; 9] = [
    "53xx7xxxx",
    "6xx195xxx",
    "x98xxxx6x",
    "8xxx6xxx3",
    "4xx8x3xx1",
    "7xxx2xxx6",
    "x6xxxx28x",
    "xxx419xx5",
    "xxxx8xx79",
];

const SOLVED: [&str; 9] = [
    "534678912",
    "672195348",
    "198342567",
    "859761423",
    "426853791",
    "713924856",
    "961537284",
    "287419635",
    "345286179",
];

fn lines_of(rows: &[&str]) -> Vec<Vec<char>> {
    rows.iter().map(|l| l.chars().collect()).collect()
}

fn board_of(rows: &[&str]) -> Puzzle {
    parse(&lines_of(rows)).ok().expect("board parses")
}

fn open_board() -> Vec<Cell> {
    (0..81).map(|i| Cell::all(to_pos(i))).collect()
}

fn set_options(board: &mut Vec<Cell>, i: usize, options: &[u8]) {
    board[i].options = options.to_vec();
}

fn total(p: &Puzzle) -> usize {
    p.board.iter().map(|c| c.options.len()).sum()
}

fn text(p: &Puzzle) -> Vec<String> {
    p.render().into_iter().map(|l| String::from_utf8(l).unwrap()).collect()
}

#[test]
fn positions_map_to_indices() {
    assert_eq!(from_pos(Pos { row: 0, col: 0 }), 0);
    assert_eq!(from_pos(Pos { row: 2, col: 7 }), 25);
    assert_eq!(from_pos(Pos { row: 8, col: 8 }), 80);
    assert_eq!(to_pos(25), Pos { row: 2, col: 7 });
    assert_eq!(to_pos(80), Pos { row: 8, col: 8 });
}

#[test]
fn cell_constructors() {
    let pos = Pos { row: 1, col: 2 };
    let all = Cell::all(pos);
    assert_eq!(all.options, vec![1, 2, 3, 4, 5, 6, 7, 8, 9]);
    assert!(!all.is_single());
    assert_eq!(all.get_single(), None);
    let one = Cell::only(pos, 4).unwrap();
    assert!(one.is_single());
    assert_eq!(one.get_single(), Some(4));
    assert!(one.has_option(4));
    assert!(!one.has_option(5));
    assert!(Cell::only(pos, 0).is_none());
    assert!(Cell::only(pos, 10).is_none());
}

#[test]
fn cell_set_equality() {
    let pos = Pos { row: 0, col: 0 };
    let mut c = Cell::all(pos);
    assert!(c.has_exactly_options(&vec![1, 2, 3, 4, 5, 6, 7, 8, 9]));
    assert!(!c.has_exactly_options(&vec![1, 2, 3]));
    c.options = vec![3, 7];
    assert!(c.has_exactly_options(&vec![3, 7]));
    assert!(!c.has_exactly_options(&vec![3, 8]));
}

#[test]
fn cell_removals() {
    let pos = Pos { row: 0, col: 0 };
    let mut c = Cell::all(pos);
    assert!(c.remove_item(5));
    assert!(!c.remove_item(5));
    assert_eq!(c.options, vec![1, 2, 3, 4, 6, 7, 8, 9]);
    assert!(c.remove_single(1));
    assert_eq!(c.options, vec![2, 3, 4, 6, 7, 8, 9]);
    let pair = Cell { pos, options: vec![3, 7, 8] };
    assert_eq!(c.remove_multiple(&pair), 3);
    assert_eq!(c.options, vec![2, 4, 6, 9]);
    let mut fixed = Cell::only(pos, 6).unwrap();
    assert!(!fixed.remove_single(6));
    assert_eq!(fixed.remove_multiple(&pair), 0);
    assert_eq!(fixed.options, vec![6]);
}

#[test]
fn groups_have_fixed_layout() {
    let p = board_of(&EASY);
    let rows = p.rows();
    let cols = p.cols();
    let boxes = p.groups();
    assert_eq!(rows.len(), 9);
    assert_eq!(rows[1], vec![9, 10, 11, 12, 13, 14, 15, 16, 17]);
    assert_eq!(cols[2], vec![2, 11, 20, 29, 38, 47, 56, 65, 74]);
    assert_eq!(boxes[0], vec![0, 1, 2, 9, 10, 11, 18, 19, 20]);
    assert_eq!(boxes[4], vec![30, 31, 32, 39, 40, 41, 48, 49, 50]);
    assert_eq!(boxes[8], vec![60, 61, 62, 69, 70, 71, 78, 79, 80]);
}

#[test]
fn parse_reads_digits_and_unknowns() {
    let p = board_of(&EASY);
    assert_eq!(p.board.len(), 81);
    assert_eq!(p.board[0].options, vec![5]);
    assert_eq!(p.board[2].options.len(), 9);
    assert_eq!(p.board[80].options, vec![9]);
    assert_eq!(p.board[13].pos, Pos { row: 1, col: 4 });
    let c = parse_char(Pos { row: 0, col: 0 }, '7').ok().unwrap();
    assert_eq!(c.options, vec![7]);
}

#[test]
fn parse_rejects_bad_characters() {
    let mut rows = EASY;
    rows[3] = "8xx?x6xx3";
    assert_eq!(parse(&lines_of(&rows)).err(), Some(ParseError::BadChar('?')));
    rows[3] = "8xxx0xxx3";
    assert_eq!(parse(&lines_of(&rows)).err(), Some(ParseError::BadChar('0')));
    assert_eq!(parse_char(Pos { row: 0, col: 0 }, '.').err(), Some(ParseError::BadChar('.')));
}

#[test]
fn parse_rejects_wrong_shape() {
    assert_eq!(parse(&lines_of(&EASY[..8])).err(), Some(ParseError::BadShape));
    let mut rows = EASY;
    rows[0] = "53xx7xxx";
    assert_eq!(parse(&lines_of(&rows)).err(), Some(ParseError::BadShape));
}

#[test]
fn render_frames_every_cell() {
    let p = board_of(&EASY);
    let t = text(&p);
    assert_eq!(t.len(), 37);
    assert_eq!(t[0], "+---+---+---+---+---+---+---+---+---+");
    assert_eq!(t[36], "+---+---+---+---+---+---+---+---+---+");
    assert_eq!(t[1], "|   |  3|123|123|   |123|123|123|123|");
    assert_eq!(t[2], "| 5 |   |456|456|   |456|456|456|456|");
    assert_eq!(t[3], "|   |   |789|789|7  |789|789|789|789|");
}

#[test]
fn solved_board_round_trips_through_render() {
    let p = board_of(&SOLVED);
    let t = text(&p);
    for (r, line) in SOLVED.iter().enumerate() {
        for (c, ch) in line.chars().enumerate() {
            let d = ch.to_digit(10).unwrap() as usize;
            for slot in 1..=9usize {
                let tl = (slot - 1) / 3;
                let u = (slot - 1) % 3;
                let shown = t[4 * r + 1 + tl].as_bytes()[4 * c + 1 + u] as char;
                if slot == d {
                    assert_eq!(shown, ch);
                } else {
                    assert_eq!(shown, ' ');
                }
            }
        }
    }
}

#[test]
fn naked_single_clears_digit_from_peer() {
    let mut board = open_board();
    set_options(&mut board, 0, &[4]);
    set_options(&mut board, 5, &[4, 8]);
    let mut p = Puzzle { board };
    let rows = p.rows();
    let removed = p.remove_singles(&rows);
    assert_eq!(p.board[5].options, vec![8]);
    assert_eq!(p.board[0].options, vec![4]);
    assert_eq!(p.board[1].options, vec![1, 2, 3, 5, 6, 7, 8, 9]);
    assert_eq!(removed, 8);
    assert_eq!(p.board[9].options.len(), 9);
}

#[test]
fn naked_single_stops_at_last_candidate() {
    let mut board = open_board();
    set_options(&mut board, 0, &[2]);
    set_options(&mut board, 1, &[3]);
    set_options(&mut board, 2, &[2, 3]);
    let mut p = Puzzle { board };
    let rows = p.rows();
    p.remove_singles(&rows);
    assert_eq!(p.board[2].options, vec![3]);
}

#[test]
fn naked_pair_clears_digits_from_group() {
    let mut board = open_board();
    set_options(&mut board, 2, &[3, 7]);
    set_options(&mut board, 6, &[3, 7]);
    set_options(&mut board, 4, &[1, 3, 5]);
    let mut p = Puzzle { board };
    let rows = p.rows();
    let removed = p.remove_pairs(&rows);
    assert_eq!(p.board[2].options, vec![3, 7]);
    assert_eq!(p.board[6].options, vec![3, 7]);
    assert_eq!(p.board[4].options, vec![1, 5]);
    assert_eq!(p.board[0].options, vec![1, 2, 4, 5, 6, 8, 9]);
    assert_eq!(removed, 2 * 6 + 1);
    assert_eq!(p.board[9].options.len(), 9);
}

#[test]
fn three_cells_of_a_pair_set_do_nothing() {
    let mut board = open_board();
    set_options(&mut board, 0, &[3, 7]);
    set_options(&mut board, 1, &[3, 7]);
    set_options(&mut board, 2, &[3, 7]);
    let mut p = Puzzle { board };
    let cols = p.cols();
    let rows = p.rows();
    assert_eq!(p.remove_pairs(&rows), 0);
    assert_eq!(p.remove_pairs(&cols), 0);
}

#[test]
fn consistency_accepts_fresh_board() {
    let p = board_of(&EASY);
    assert!(p.verify_state().is_ok());
    let rows = p.rows();
    assert!(p.verify_friends(&rows[0]));
}

#[test]
fn consistency_flags_missing_digit() {
    let mut rows = EASY;
    rows[0] = "551234678";
    let p = board_of(&rows);
    let v = p.verify_state().err().expect("row 0 lacks a 9");
    assert_eq!(v.group, vec![0, 1, 2, 3, 4, 5, 6, 7, 8]);
    let mut q = board_of(&rows);
    let mut trace = Vec::new();
    assert!(q.solve(&mut trace).is_err());
}

#[test]
fn solve_is_sound_and_stable() {
    let mut p = board_of(&EASY);
    let before = total(&p);
    let mut trace = Vec::new();
    let removed = p.solve(&mut trace).ok().expect("consistent puzzle");
    assert_eq!(removed, before - total(&p));
    assert!(removed <= 81 * 8);
    assert!(!trace.is_empty());
    for (r, line) in SOLVED.iter().enumerate() {
        for (c, ch) in line.chars().enumerate() {
            let d = ch.to_digit(10).unwrap() as u8;
            assert!(p.board[r * 9 + c].has_option(d));
        }
    }
    let mut again = Vec::new();
    assert_eq!(p.round(&mut again).ok(), Some(0));
    assert!(again.is_empty());
    assert!(p.verify_state().is_ok());
}

#[test]
fn solving_a_solved_board_removes_nothing() {
    let mut p = board_of(&SOLVED);
    let mut trace = Vec::new();
    assert_eq!(p.solve(&mut trace).ok(), Some(0));
    assert_eq!(total(&p), 81);
}

#[test]
fn render_marks_removed_candidates() {
    let mut board = open_board();
    set_options(&mut board, 0, &[1, 9]);
    let p = Puzzle { board };
    let t = text(&p);
    assert_eq!(&t[1][0..4], "|1  ");
    assert_eq!(&t[2][0..4], "|   ");
    assert_eq!(&t[3][0..4], "|  9");
}

#[test]
fn vec_remove_item_takes_first_match() {
    let mut v: Vec<u8> = vec![4, 7, 2, 7];
    assert_eq!(v.remove_item(&7), Some(7));
    assert_eq!(v, vec![4, 2, 7]);
    assert_eq!(v.remove_item(&9), None);
    assert_eq!(v, vec![4, 2, 7]);
}

#[test]
fn solve_only_shrinks_and_keeps_givens() {
    let start = board_of(&EASY);
    let mut p = board_of(&EASY);
    let mut trace = Vec::new();
    p.solve(&mut trace).ok().expect("consistent puzzle");
    for i in 0..81 {
        let now = &p.board[i].options;
        let was = &start.board[i].options;
        assert!(!now.is_empty());
        assert!(now.iter().all(|d| was.contains(d)));
        if was.len() == 1 {
            assert_eq!(now, was);
        }
    }
}

#[test]
fn set_equality_ignores_order() {
    let mut c = Cell::all(Pos { row: 0, col: 0 });
    c.options = vec![3, 7];
    assert!(c.has_exactly_options(&vec![7, 3]));
    assert!(!c.has_exactly_options(&vec![7, 7]));
    assert!(!c.has_exactly_options(&vec![7, 3, 5]));
}

#[test]
fn parse_places_every_cell() {
    let p = board_of(&SOLVED);
    for i in 0..81 {
        assert_eq!(p.board[i].pos, Pos { row: i / 9, col: i % 9 });
        assert_eq!(p.board[i].options.len(), 1);
    }
    assert_eq!(p.board[8].options, vec![2]);
    assert_eq!(p.board[80].pos, Pos { row: 8, col: 8 });
}

#[test]
fn pass_records_board_only_when_it_removes() {
    let mut board = open_board();
    set_options(&mut board, 0, &[4]);
    let mut p = Puzzle { board };
    let rows = p.rows();
    let mut trace = Vec::new();
    assert_eq!(p.run_pass(&rows, true, &mut trace).ok(), Some(0));
    assert!(trace.is_empty());
    assert_eq!(p.run_pass(&rows, false, &mut trace).ok(), Some(8));
    assert_eq!(trace.len(), 1);
    assert_eq!(trace[0], p.render());
    for i in 0..81 {
        assert_eq!(p.board[i].pos, to_pos(i));
    }
}
