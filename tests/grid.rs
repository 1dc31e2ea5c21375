use sudoku_solver::rules::EMPTY;
use arrayvec::ArrayVec;
use sudoku_solver::solution::{ParseError, Solution, UndoLog};

fn grid(text: &str) -> Solution {
    Solution::load_string(text.to_string()).unwrap()
}

#[test]
fn parse_maps_digits_and_blanks() {
    let s = grid("1_0\n\n_______9");
    assert_eq!(s.get(0, 0), 0);
    assert_eq!(s.get(1, 0), EMPTY);
    assert_eq!(s.get(2, 0), EMPTY);
    assert_eq!(s.get(3, 0), EMPTY);
    assert_eq!(s.get(7, 2), 8);
    assert_eq!(s.get(8, 2), EMPTY);
    assert!(!s.solved());
}

#[test]
fn parse_accepts_crlf_and_trailing_blank_lines() {
    let s = grid("12\r\n3\r\n\n\n\n\n\n\n\n\n  \n\t\n");
    assert_eq!(s.get(0, 0), 0);
    assert_eq!(s.get(1, 0), 1);
    assert_eq!(s.get(0, 1), 2);
}

#[test]
fn parse_rejects_tenth_non_blank_line() {
    let r = Solution::load_string("\n\n\n\n\n\n\n\n\n  5".to_string());
    assert_eq!(r.unwrap_err(), ParseError::TooManyLines);
}

#[test]
fn parse_rejects_long_line() {
    let r = Solution::load_string("1234567891".to_string());
    assert_eq!(r.unwrap_err(), ParseError::LineTooLong);
}

#[test]
fn parse_rejects_unknown_character() {
    let r = Solution::load_string("12x".to_string());
    assert_eq!(r.unwrap_err(), ParseError::InvalidChar('x'));
}

#[test]
fn full_text_is_solved() {
    let s = grid("534678912\n672195348\n198342567\n859761423\n426853791\n713924856\n961537284\n287419635\n345286179");
    assert!(s.solved());
    assert!(s.is_valid());
}

#[test]
fn empty_grid_is_valid() {
    assert!(grid("").is_valid());
}

#[test]
fn duplicate_in_row_is_invalid() {
    assert!(!grid("5____5___").is_valid());
}

#[test]
fn duplicate_in_column_is_invalid() {
    assert!(!grid("3\n\n\n\n\n\n\n\n3").is_valid());
}

#[test]
fn duplicate_in_box_is_invalid() {
    assert!(!grid("7\n\n__7").is_valid());
}

#[test]
fn same_value_apart_is_valid() {
    assert!(grid("7\n___7\n______7").is_valid());
}

#[test]
fn set_empty_on_empty_cell_keeps_count() {
    // One empty cell left: it stays the only one.
    let mut s = grid("_34678912\n672195348\n198342567\n859761423\n426853791\n713924856\n961537284\n287419635\n345286179");
    s.set(0, 0, EMPTY);
    assert!(!s.solved());
    s.set(0, 0, 4);
    assert!(s.solved());
}

#[test]
fn set_other_value_on_filled_cell_keeps_count() {
    let mut s = grid("_34678912\n672195348\n198342567\n859761423\n426853791\n713924856\n961537284\n287419635\n345286179");
    s.set(1, 0, 0);
    assert_eq!(s.get(1, 0), 0);
    assert!(!s.solved());
    s.set(0, 0, 4);
    assert!(s.solved());
    s.set(0, 0, 7);
    assert!(s.solved());
    s.set(0, 0, EMPTY);
    assert!(!s.solved());
}

#[test]
fn undo_then_reapply_restores_grid() {
    let mut s = grid("53__7____");
    let mut log: UndoLog = ArrayVec::new();
    log.push((2, 0));
    s.set(2, 0, 3);
    log.push((3, 0));
    s.set(3, 0, 5);
    log.push((5, 0));
    s.set(5, 0, 7);
    let before = s;
    s.undo(&mut log, 1);
    assert_eq!(log.len(), 1);
    assert_eq!(log[0], (2, 0));
    assert_eq!(s.get(2, 0), 3);
    assert_eq!(s.get(3, 0), EMPTY);
    assert_eq!(s.get(5, 0), EMPTY);
    assert!(!(s == before));
    s.set(3, 0, before.get(3, 0));
    s.set(5, 0, before.get(5, 0));
    assert!(s == before);
}

#[test]
fn undo_to_start_empties_every_logged_cell() {
    let start = grid("53__7____");
    let mut s = start;
    let mut log: UndoLog = ArrayVec::new();
    log.push((2, 0));
    s.set(2, 0, 3);
    log.push((8, 8));
    s.set(8, 8, 0);
    s.undo(&mut log, 0);
    assert!(log.is_empty());
    assert!(s == start);
}

#[test]
fn grids_differ_when_a_cell_differs() {
    assert!(!(grid("1") == grid("2")));
    assert!(grid("1") == grid("1________"));
}
