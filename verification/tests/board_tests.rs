use cell_tower::board::ParseError;
use cell_tower::{Board, Point, PointSet};

fn p(x: u8, y: u8) -> Point {
    Point::new(x, y)
}

fn path(points: &[Point]) -> PointSet {
    PointSet::from(points)
}

const TOWER: &str = "abcdefg\nhijklmn\nopqrstu\nvwxyzab\ncdefghi\njklmnop\nqrstuvw\nxyzabcd\nefghijk\nlmnopqr\nstuvwxy\nzabcdef\n";

#[test]
fn parse_two_by_two() {
    let board = Board::try_from("ab\ncd\n", 2, 2).unwrap();
    assert_eq!(board.width(), 2);
    assert_eq!(board.height(), 2);
    assert_eq!(board.letter_at(p(0, 0)), b'a');
    assert_eq!(board.letter_at(p(1, 0)), b'b');
    assert_eq!(board.letter_at(p(0, 1)), b'c');
    assert_eq!(board.letter_at(p(1, 1)), b'd');
    assert_eq!(board.n_words(), 0);
    assert!(!board.is_done());
    for y in 0..2 {
        for x in 0..2 {
            assert!(!board.visited(x, y));
            assert_eq!(board.word_at(p(x as u8, y as u8)), None);
        }
    }
}

#[test]
fn parse_seven_by_twelve() {
    let board = Board::try_from(TOWER, 7, 12).unwrap();
    assert_eq!(board.letter_at(p(0, 0)), b'a');
    assert_eq!(board.letter_at(p(6, 0)), b'g');
    assert_eq!(board.letter_at(p(0, 1)), b'h');
    assert_eq!(board.letter_at(p(4, 3)), b'z');
    assert_eq!(board.letter_at(p(6, 11)), b'f');
    assert_eq!(board.get_root(), Some(p(0, 0)));
}

#[test]
fn parse_rejects_what_follows_the_last_line() {
    assert_eq!(Board::try_from("ab\ncd\nXY!", 2, 2).err(), Some(ParseError::UnexpectedChar(b'X')));
    assert_eq!(Board::try_from("ab\ncd\n\n", 2, 2).err(), Some(ParseError::UnexpectedChar(b'\n')));
    assert_eq!(Board::try_from("ab\ncd\nef\n", 2, 2).err(), Some(ParseError::UnexpectedChar(b'e')));
    assert_eq!(Board::try_from("a", 3, 0).err(), Some(ParseError::UnexpectedChar(b'a')));
    let mut long = String::from(TOWER);
    long.push('z');
    assert_eq!(Board::try_from(&long, 7, 12).err(), Some(ParseError::UnexpectedChar(b'z')));
    assert!(Board::try_from(TOWER, 7, 12).is_ok());
}

#[test]
fn parse_unexpected_character() {
    assert_eq!(Board::try_from("aB\ncd\n", 2, 2).err(), Some(ParseError::UnexpectedChar(b'B')));
    assert_eq!(Board::try_from("ab\nc1\n", 2, 2).err(), Some(ParseError::UnexpectedChar(b'1')));
    assert_eq!(Board::try_from("a`\ncd\n", 2, 2).err(), Some(ParseError::UnexpectedChar(b'`')));
    assert_eq!(Board::try_from("a{\ncd\n", 2, 2).err(), Some(ParseError::UnexpectedChar(b'{')));
}

#[test]
fn parse_line_too_long_or_too_short() {
    assert_eq!(Board::try_from("abc\ncd\n", 2, 2).err(), Some(ParseError::UnexpectedChar(b'c')));
    assert_eq!(Board::try_from("a\ncd\n", 2, 2).err(), Some(ParseError::UnexpectedChar(b'\n')));
}

#[test]
fn parse_reports_the_first_fault() {
    assert_eq!(Board::try_from("aX\nc", 2, 2).err(), Some(ParseError::UnexpectedChar(b'X')));
}

#[test]
fn parse_missing_character() {
    assert_eq!(
        Board::try_from("", 2, 2).err(),
        Some(ParseError::MissingChar { line: 0, character: 0 })
    );
    assert_eq!(
        Board::try_from("ab", 2, 2).err(),
        Some(ParseError::MissingChar { line: 0, character: 2 })
    );
    assert_eq!(
        Board::try_from("ab\nc", 2, 2).err(),
        Some(ParseError::MissingChar { line: 1, character: 1 })
    );
    assert_eq!(
        Board::try_from("ab\ncd", 2, 2).err(),
        Some(ParseError::MissingChar { line: 1, character: 2 })
    );
    assert_eq!(
        Board::try_from(&TOWER[..TOWER.len() - 1], 7, 12).err(),
        Some(ParseError::MissingChar { line: 11, character: 7 })
    );
}

#[test]
fn parse_empty_grids() {
    let none = Board::try_from("", 3, 0).unwrap();
    assert!(none.is_done());
    assert_eq!(none.get_root(), None);
    let thin = Board::try_from("\n\n", 0, 2).unwrap();
    assert!(thin.is_done());
    assert_eq!(thin.n_words(), 0);
}

#[test]
fn insert_marks_cells_with_the_next_id() {
    let mut board = Board::try_from("abc\ndef\n", 3, 2).unwrap();
    board.insert_word(&path(&[p(0, 0), p(1, 0)]));
    assert_eq!(board.n_words(), 1);
    assert_eq!(board.word_at(p(0, 0)), Some(0));
    assert_eq!(board.word_at(p(1, 0)), Some(0));
    assert_eq!(board.word_at(p(2, 0)), None);
    assert!(board.visited(0, 0));
    assert!(!board.visited(2, 0));
    board.insert_word(&path(&[p(2, 0), p(2, 1)]));
    assert_eq!(board.n_words(), 2);
    assert_eq!(board.word_at(p(2, 0)), Some(1));
    assert_eq!(board.word_at(p(2, 1)), Some(1));
    assert_eq!(board.word_at(p(0, 0)), Some(0));
    assert!(!board.is_done());
    board.insert_word(&path(&[p(0, 1), p(1, 1)]));
    assert_eq!(board.n_words(), 3);
    assert!(board.is_done());
    assert_eq!(board.get_root(), None);
}

#[test]
fn word_count_after_k_inserts_is_k() {
    let mut board = Board::try_from(TOWER, 7, 12).unwrap();
    let mut k = 0;
    for y in 0..12 {
        for x in 0..7 {
            assert_eq!(board.n_words(), k);
            board.insert_word(&path(&[p(x, y)]));
            k += 1;
        }
    }
    assert_eq!(board.n_words(), 84);
    assert!(board.is_done());
    assert_eq!(board.word_at(p(6, 11)), Some(83));
}

fn snapshot(board: &Board) -> Vec<(u8, Option<usize>)> {
    let mut cells = Vec::new();
    for y in 0..board.height() {
        for x in 0..board.width() {
            let at = p(x as u8, y as u8);
            cells.push((board.letter_at(at), board.word_at(at)));
        }
    }
    cells
}

#[test]
fn insert_then_remove_restores_the_board() {
    let mut board = Board::try_from("abc\ndef\n", 3, 2).unwrap();
    board.insert_word(&path(&[p(0, 0)]));
    let before = snapshot(&board);
    let word = path(&[p(1, 0), p(2, 0), p(2, 1)]);
    board.insert_word(&word);
    assert_ne!(snapshot(&board), before);
    board.remove_word(&word);
    assert_eq!(snapshot(&board), before);
    assert_eq!(board.n_words(), 1);
    assert_eq!(board.get_root(), Some(p(1, 0)));
}

#[test]
fn get_root_is_first_free_cell_in_row_major_order() {
    let mut board = Board::try_from("abc\ndef\n", 3, 2).unwrap();
    assert_eq!(board.get_root(), Some(p(0, 0)));
    board.insert_word(&path(&[p(0, 0), p(0, 1)]));
    assert_eq!(board.get_root(), Some(p(1, 0)));
    board.insert_word(&path(&[p(1, 0), p(2, 0)]));
    assert_eq!(board.get_root(), Some(p(1, 1)));
}

#[test]
fn connections_join_cells_of_one_word() {
    let mut board = Board::try_from("abc\ndef\n", 3, 2).unwrap();
    assert!(!board.is_h_connection(0, 0));
    assert!(!board.is_v_connection(0, 0));
    board.insert_word(&path(&[p(0, 0), p(1, 0), p(1, 1)]));
    board.insert_word(&path(&[p(2, 0), p(2, 1)]));
    assert!(board.is_h_connection(0, 0));
    assert!(!board.is_h_connection(1, 0));
    assert!(!board.is_h_connection(0, 1));
    assert!(!board.is_h_connection(1, 1));
    assert!(!board.is_v_connection(0, 0));
    assert!(board.is_v_connection(1, 0));
    assert!(board.is_v_connection(2, 0));
}

#[test]
fn clone_is_a_snapshot() {
    let mut board = Board::try_from("ab\ncd\n", 2, 2).unwrap();
    board.insert_word(&path(&[p(0, 0), p(0, 1)]));
    let copy = board.clone();
    board.insert_word(&path(&[p(1, 0), p(1, 1)]));
    assert_eq!(copy.n_words(), 1);
    assert_eq!(copy.word_at(p(1, 0)), None);
    assert_eq!(copy.word_at(p(0, 1)), Some(0));
    assert_eq!(copy.letter_at(p(1, 1)), b'd');
    assert_eq!(board.n_words(), 2);
}
