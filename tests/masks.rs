use sudoku_solver::board::{Possibilities, SudokuPossibility};
use sudoku_solver::solution::Solution;
use sudoku_solver::util::title_case;

#[test]
fn full_mask_has_every_value() {
    let p = SudokuPossibility::new();
    assert_eq!(p.mask(), 0x1ff);
    assert_eq!(p.bits_set(), 9);
    for v in 0..9 {
        assert!(p.has(v));
    }
    assert!(!p.is_empty());
    assert_eq!(p.slow_find(), None);
}

#[test]
fn single_value_mask() {
    let p = SudokuPossibility::new_val(6);
    assert_eq!(p.mask(), 64);
    assert_eq!(p.bits_set(), 1);
    assert_eq!(p.find_single_bit(), 6);
    assert_eq!(p.slow_find(), Some(6));
    assert!(p.has(6));
    assert!(!p.has(5));
}

#[test]
fn and_mask_clears_bits() {
    let p = SudokuPossibility::new().and_mask(!(1u16 << 3));
    assert_eq!(p.mask(), 0x1f7);
    assert_eq!(p.bits_set(), 8);
    assert!(!p.has(3));
    let mut q = SudokuPossibility::new_val(8);
    q.and_mask_inplace(!(1u16 << 8));
    assert!(q.is_empty());
    assert_eq!(q.bits_set(), 0);
    assert_eq!(q.slow_find(), None);
}

#[test]
fn two_values_have_no_single() {
    let p = SudokuPossibility::new().and_mask(0b1_0000_0001);
    assert_eq!(p.bits_set(), 2);
    assert_eq!(p.slow_find(), None);
    let q = SudokuPossibility::new().and_mask(0b1_0000_0000);
    assert_eq!(q.find_single_bit(), 8);
    assert_eq!(q.slow_find(), Some(8));
}

#[test]
fn elimination_reaches_row_column_and_box() {
    let mut p = Possibilities::new_full();
    p.update_found(4, 4, 2);
    assert!(!p.get(4, 4).has(2));
    assert!(!p.get(0, 4).has(2));
    assert!(!p.get(4, 8).has(2));
    assert!(!p.get(3, 3).has(2));
    assert!(!p.get(5, 5).has(2));
    assert!(p.get(0, 0).has(2));
    assert!(p.get(3, 2).has(2));
    assert_eq!(p.get(0, 4).bits_set(), 8);
    assert_eq!(p.get(0, 0).bits_set(), 9);
}

#[test]
fn masks_of_a_puzzle_follow_its_givens() {
    let s = Solution::load_string("53__7____\n6__195___".to_string()).unwrap();
    let p = Possibilities::from_solution(&s);
    let m = p.get(2, 0);
    // Row 0 holds 5, 3, 7; the box holds 6 too; column 2 holds nothing.
    assert!(!m.has(4));
    assert!(!m.has(2));
    assert!(!m.has(6));
    assert!(!m.has(5));
    assert!(m.has(0));
    assert_eq!(m.bits_set(), 5);
}

#[test]
fn title_case_capitalises_words() {
    assert_eq!(title_case("very_easy"), "Very Easy");
    assert_eq!(title_case("hard"), "Hard");
    assert_eq!(title_case("a b_c"), "A B C");
    assert_eq!(title_case("_x9 1y"), " X9 1y");
    assert_eq!(title_case(""), "");
}

#[test]
fn masks_of_empty_grid_are_full() {
    let s = Solution::load_string(String::new()).unwrap();
    let p = Possibilities::from_solution(&s);
    for y in 0..9 {
        for x in 0..9 {
            assert_eq!(p.get(x, y).mask(), 0x1ff);
        }
    }
}

#[test]
fn masks_stay_in_step_after_a_placement() {
    let mut s = Solution::load_string("53__7____\n6__195___".to_string()).unwrap();
    let mut p = Possibilities::from_solution(&s);
    assert!(p.get(2, 0).has(0));
    s.set(2, 0, 0);
    p.update_found(2, 0, 0);
    let q = Possibilities::from_solution(&s);
    for y in 0..9 {
        for x in 0..9 {
            assert!(p.get(x, y).mask() < 512);
            assert_eq!(p.get(x, y).mask(), q.get(x, y).mask());
        }
    }
}
