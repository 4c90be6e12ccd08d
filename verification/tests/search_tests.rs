use cell_tower::dictionary::{first_node, from_words};
use cell_tower::{Board, Node, Point, PointSet};

fn p(x: u8, y: u8) -> Point {
    Point::new(x, y)
}

fn dict(list: &[&str]) -> Node {
    let words: Vec<Vec<u8>> = list.iter().map(|w| w.as_bytes().to_vec()).collect();
    from_words(&words).unwrap()
}

fn cells(words: &[PointSet]) -> Vec<Vec<Point>> {
    words.iter().map(|w| w.to_vec()).collect()
}

fn ids(board: &Board) -> Vec<Vec<Option<usize>>> {
    (0..board.height())
        .map(|y| (0..board.width()).map(|x| board.word_at(p(x as u8, y as u8))).collect())
        .collect()
}

#[test]
fn two_by_two_columns() {
    let dict = dict(&["ac", "bd"]);
    let mut board = Board::try_from("ab\ncd\n", 2, 2).unwrap();
    let solutions = board.enumerate_solutions(&dict);
    assert_eq!(solutions.len(), 1);
    assert_eq!(ids(&solutions[0]), vec![vec![Some(0), Some(1)], vec![Some(0), Some(1)]]);
    assert!(solutions[0].is_done());
    // the board itself is left as it was
    assert_eq!(board.n_words(), 0);
    assert_eq!(ids(&board), vec![vec![None, None], vec![None, None]]);

    assert!(board.solve(&dict));
    assert!(board.is_done());
    assert_eq!(board.word_at(p(0, 0)), Some(0));
    assert_eq!(board.word_at(p(1, 0)), Some(1));
    assert_eq!(board.word_at(p(0, 1)), Some(0));
    assert_eq!(board.word_at(p(1, 1)), Some(1));
    assert_eq!(board.n_words(), 2);
}

#[test]
fn next_words_start_at_the_first_free_cell() {
    let dict = dict(&["ac", "bd"]);
    let mut board = Board::try_from("ab\ncd\n", 2, 2).unwrap();
    assert_eq!(cells(&board.next_words(&dict)), vec![vec![p(0, 0), p(0, 1)]]);
    board.insert_word(&PointSet::from([p(0, 0), p(0, 1)].as_slice()));
    assert_eq!(cells(&board.next_words(&dict)), vec![vec![p(1, 0), p(1, 1)]]);
}

#[test]
fn next_words_without_a_node_for_the_first_letter() {
    let dict = dict(&["bd", "cd"]);
    let board = Board::try_from("ab\ncd\n", 2, 2).unwrap();
    assert!(board.next_words(&dict).is_empty());
}

#[test]
fn a_word_and_the_words_that_continue_it() {
    let dict = dict(&["ab", "abd", "abdc", "a", "ac"]);
    let board = Board::try_from("ab\ncd\n", 2, 2).unwrap();
    assert_eq!(
        cells(&board.next_words(&dict)),
        vec![
            vec![p(0, 0)],
            vec![p(0, 0), p(1, 0)],
            vec![p(0, 0), p(1, 0), p(1, 1)],
            vec![p(0, 0), p(0, 1)],
        ]
    );
}

#[test]
fn a_word_must_hang_together() {
    // "ad" would take (0,0) and (1,1), which only touch at a corner.
    let dict = dict(&["ad", "abd"]);
    let board = Board::try_from("ab\ncd\n", 2, 2).unwrap();
    assert_eq!(cells(&board.next_words(&dict)), vec![vec![p(0, 0), p(1, 0), p(1, 1)]]);
}

#[test]
fn a_word_may_skip_cells_and_close_the_gap_below() {
    // a . c over d e f: a, c, d, e, f is contiguous through the lower row.
    let dict = dict(&["acdef", "ac"]);
    let board = Board::try_from("abc\ndef\n", 3, 2).unwrap();
    assert_eq!(
        cells(&board.next_words(&dict)),
        vec![vec![p(0, 0), p(2, 0), p(0, 1), p(1, 1), p(2, 1)]]
    );
}

#[test]
fn words_skip_cells_that_are_taken() {
    let dict = dict(&["ab", "ad", "be"]);
    let mut board = Board::try_from("abc\ndef\n", 3, 2).unwrap();
    board.insert_word(&PointSet::from([p(0, 0), p(0, 1)].as_slice()));
    assert_eq!(cells(&board.next_words(&dict)), vec![vec![p(1, 0), p(1, 1)]]);
}

#[test]
fn words_are_at_most_eight_cells_long() {
    let dict = dict(&["abcdefgh", "abcdefghi", "abcdefg"]);
    let board = Board::try_from("abcdefghi\n", 9, 1).unwrap();
    let found = cells(&board.next_words(&dict));
    assert_eq!(found.len(), 2);
    assert_eq!(found[0].len(), 7);
    assert_eq!(found[1].len(), 8);
}

#[test]
fn list_words_from_a_longer_path() {
    let dict = dict(&["abe", "abef"]);
    let board = Board::try_from("abc\ndef\n", 3, 2).unwrap();
    let node = first_node(&dict, b'a').unwrap().get_next(b'b').unwrap();
    let mut list = vec![PointSet::new(p(9, 9))];
    board.list_words(PointSet::from([p(0, 0), p(1, 0)].as_slice()), node, &mut list);
    assert_eq!(
        cells(&list),
        vec![
            vec![p(9, 9)],
            vec![p(0, 0), p(1, 0), p(1, 1)],
            vec![p(0, 0), p(1, 0), p(1, 1), p(2, 1)],
        ]
    );
}

#[test]
fn unsolvable_board_is_left_as_it_was() {
    let dict = dict(&["ac", "b"]);
    let mut board = Board::try_from("ab\ncd\n", 2, 2).unwrap();
    assert!(!board.solve(&dict));
    assert_eq!(board.n_words(), 0);
    assert_eq!(ids(&board), vec![vec![None, None], vec![None, None]]);
    assert!(board.enumerate_solutions(&dict).is_empty());
}

#[test]
fn every_partition_is_found_once() {
    let dict = dict(&["ab", "cd", "ac", "bd", "abdc"]);
    let mut board = Board::try_from("ab\ncd\n", 2, 2).unwrap();
    let solutions: Vec<Vec<Vec<Option<usize>>>> =
        board.enumerate_solutions(&dict).iter().map(ids).collect();
    assert_eq!(
        solutions,
        vec![
            vec![vec![Some(0), Some(0)], vec![Some(1), Some(1)]],
            vec![vec![Some(0), Some(1)], vec![Some(0), Some(1)]],
        ]
    );
    assert!(board.solve(&dict));
    assert_eq!(ids(&board), vec![vec![Some(0), Some(0)], vec![Some(1), Some(1)]]);
}

#[test]
fn solve_backtracks_over_a_dead_end() {
    // "ab" comes first but leaves "cd" without a word; "ac", "bd" fills the grid.
    let dict = dict(&["ab", "ac", "bd"]);
    let mut board = Board::try_from("ab\ncd\n", 2, 2).unwrap();
    assert!(board.solve(&dict));
    assert_eq!(ids(&board), vec![vec![Some(0), Some(1)], vec![Some(0), Some(1)]]);
}

#[test]
fn solve_a_three_by_three() {
    let dict = dict(&["cat", "dog", "sun", "cds", "aou", "tgn"]);
    let mut board = Board::try_from("cat\ndog\nsun\n", 3, 3).unwrap();
    assert_eq!(board.enumerate_solutions(&dict).len(), 2);
    assert!(board.solve(&dict));
    assert_eq!(
        ids(&board),
        vec![
            vec![Some(0), Some(0), Some(0)],
            vec![Some(1), Some(1), Some(1)],
            vec![Some(2), Some(2), Some(2)],
        ]
    );
}

#[test]
fn solutions_come_in_the_order_of_the_search() {
    // One row: "ab" "cd", "abc" "d", "a" "bcd", "abcd".
    let dict = dict(&["a", "ab", "abc", "abcd", "bcd", "cd", "d"]);
    let mut board = Board::try_from("abcd\n", 4, 1).unwrap();
    assert_eq!(
        cells(&board.next_words(&dict)),
        vec![
            vec![p(0, 0)],
            vec![p(0, 0), p(1, 0)],
            vec![p(0, 0), p(1, 0), p(2, 0)],
            vec![p(0, 0), p(1, 0), p(2, 0), p(3, 0)],
        ]
    );
    let solutions: Vec<Vec<Vec<Option<usize>>>> =
        board.enumerate_solutions(&dict).iter().map(ids).collect();
    assert_eq!(
        solutions,
        vec![
            vec![vec![Some(0), Some(1), Some(1), Some(1)]],
            vec![vec![Some(0), Some(0), Some(1), Some(1)]],
            vec![vec![Some(0), Some(0), Some(0), Some(1)]],
            vec![vec![Some(0), Some(0), Some(0), Some(0)]],
        ]
    );
    assert!(board.solve(&dict));
    assert_eq!(ids(&board), vec![vec![Some(0), Some(1), Some(1), Some(1)]]);
}

#[test]
fn a_full_board_is_its_own_solution() {
    let dict = dict(&["ab", "cd"]);
    let mut board = Board::try_from("ab\ncd\n", 2, 2).unwrap();
    board.insert_word(&PointSet::from([p(0, 0), p(1, 0)].as_slice()));
    board.insert_word(&PointSet::from([p(0, 1), p(1, 1)].as_slice()));
    assert!(board.is_done());
    let filled = ids(&board);
    assert!(board.next_words(&dict).is_empty());
    assert!(board.solve(&dict));
    assert_eq!(ids(&board), filled);
    let solutions: Vec<Vec<Vec<Option<usize>>>> =
        board.enumerate_solutions(&dict).iter().map(ids).collect();
    assert_eq!(solutions, vec![filled.clone()]);
    assert_eq!(ids(&board), filled);
}

#[test]
fn a_board_without_cells_is_solved() {
    let dict = dict(&["a"]);
    let mut board = Board::try_from("", 5, 0).unwrap();
    assert!(board.solve(&dict));
    assert_eq!(board.enumerate_solutions(&dict).len(), 1);
    assert_eq!(board.n_words(), 0);
}

#[test]
fn solve_goes_on_from_a_board_in_progress() {
    let dict = dict(&["ab", "cd", "ac", "bd"]);
    let mut board = Board::try_from("ab\ncd\n", 2, 2).unwrap();
    board.insert_word(&PointSet::from([p(0, 0), p(0, 1)].as_slice()));
    assert!(board.solve(&dict));
    assert_eq!(ids(&board), vec![vec![Some(0), Some(1)], vec![Some(0), Some(1)]]);
}
