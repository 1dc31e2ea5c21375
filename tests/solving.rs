use sudoku_solver::board::Possibilities;
use sudoku_solver::rules::EMPTY;
use sudoku_solver::solution::Solution;
use sudoku_solver::solver::{recursively_attempt, solve_backtracking};

const CLASSIC: &str = "53__7____\n6__195___\n_98____6_\n8___6___3\n4__8_3__1\n7___2___6\n_6____28_\n___419__5\n____8__79";
const CLASSIC_SOLVED: &str = "534678912\n672195348\n198342567\n859761423\n426853791\n713924856\n961537284\n287419635\n345286179";

fn grid(text: &str) -> Solution {
    Solution::load_string(text.to_string()).unwrap()
}

#[test]
fn classic_puzzle_solves_to_known_grid() {
    let solved = solve_backtracking(grid(CLASSIC)).unwrap();
    assert!(solved == grid(CLASSIC_SOLVED));
    assert!(solved.solved());
}

#[test]
fn two_fives_in_one_row_has_no_solution() {
    assert!(solve_backtracking(grid("5____5___")).is_none());
}

#[test]
fn conflict_free_but_unsolvable_puzzle_gives_none() {
    // The last cell of the first row can only take 9, which its column already holds.
    let p = grid("12345678_\n\n\n\n________9");
    assert!(p.is_valid());
    assert!(solve_backtracking(p).is_none());
}

#[test]
fn solving_is_reproducible() {
    let a = solve_backtracking(grid(CLASSIC)).unwrap();
    let b = solve_backtracking(grid(CLASSIC)).unwrap();
    assert!(a == b);
}

#[test]
fn solving_a_solved_grid_returns_it() {
    let once = solve_backtracking(grid(CLASSIC)).unwrap();
    let twice = solve_backtracking(once).unwrap();
    assert!(twice == once);
}

#[test]
fn solved_grid_has_no_conflicts() {
    let solved = solve_backtracking(grid(CLASSIC)).unwrap();
    assert!(solved.is_valid());
    for y in 0..9 {
        for x in 0..9 {
            assert!(solved.get(x, y) < EMPTY);
        }
    }
}

#[test]
fn empty_puzzle_solves_to_a_valid_grid() {
    let solved = solve_backtracking(grid("")).unwrap();
    assert!(solved.solved());
    assert!(solved.is_valid());
}

#[test]
fn hard_puzzle_needs_search_and_solves() {
    let p = grid("8________\n__36_____\n_7__9_2__\n_5___7___\n____457__\n___1___3_\n__1____68\n__85___1_\n_9____4__");
    let solved = solve_backtracking(p).unwrap();
    assert!(solved.is_valid());
    let expected = grid("812753649\n943682175\n675491283\n154237896\n369845721\n287169534\n521974368\n438526917\n796318452");
    assert!(solved == expected);
    for y in 0..9 {
        for x in 0..9 {
            if p.get(x, y) != EMPTY {
                assert_eq!(solved.get(x, y), p.get(x, y));
            }
        }
    }
}

#[test]
fn search_step_fills_grid_in_place() {
    let mut s = grid(CLASSIC);
    let p = Possibilities::from_solution(&s);
    recursively_attempt(p, &mut s);
    assert!(s == grid(CLASSIC_SOLVED));
}

#[test]
fn search_step_leaves_unsolvable_grid_unchanged() {
    let start = grid("12345678_\n\n\n\n________9");
    let mut s = start;
    let p = Possibilities::from_solution(&s);
    recursively_attempt(p, &mut s);
    assert!(s == start);
    assert!(!s.solved());
}

#[test]
fn complete_grid_is_returned_unchanged() {
    let full = grid(CLASSIC_SOLVED);
    assert!(solve_backtracking(full).unwrap() == full);
}

#[test]
fn complete_grid_with_clash_has_no_solution() {
    let mut clash = grid(CLASSIC_SOLVED);
    clash.set(0, 0, 3);
    assert!(!clash.is_valid());
    assert!(solve_backtracking(clash).is_none());
}

#[test]
fn clash_in_column_or_box_has_no_solution() {
    assert!(solve_backtracking(grid("3\n\n\n\n\n\n\n\n3")).is_none());
    assert!(solve_backtracking(grid("7\n\n__7")).is_none());
}

#[test]
fn search_step_on_solved_grid_changes_nothing() {
    let mut s = grid(CLASSIC_SOLVED);
    let p = Possibilities::from_solution(&s);
    recursively_attempt(p, &mut s);
    assert!(s == grid(CLASSIC_SOLVED));
}
