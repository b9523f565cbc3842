use sudoku::digits::{insert_ascending, list_contains};
use sudoku::SudokuBoard;

fn standard_puzzle() -> [[i32; 9]; 9] {
    [
        [0, 0, 4, 0, 0, 0, 6, 0, 0],
        [2, 7, 0, 0, 0, 0, 0, 9, 0],
        [0, 0, 0, 2, 8, 0, 0, 0, 0],
        [0, 0, 6, 0, 9, 0, 1, 7, 0],
        [4, 0, 0, 0, 0, 0, 0, 0, 0],
        [0, 0, 0, 0, 7, 2, 0, 0, 4],
        [0, 8, 0, 3, 0, 4, 0, 0, 0],
        [9, 5, 0, 0, 0, 0, 0, 8, 0],
        [0, 0, 0, 0, 1, 0, 0, 0, 0],
    ]
}

fn solved_grid() -> [[i32; 9]; 9] {
    [
        [4, 3, 6, 8, 1, 7, 9, 2, 5],
        [7, 1, 9, 2, 4, 5, 8, 6, 3],
        [8, 2, 5, 6, 3, 9, 1, 7, 4],
        [6, 5, 3, 4, 9, 8, 2, 1, 7],
        [2, 7, 1, 5, 6, 3, 4, 8, 9],
        [9, 8, 4, 1, 7, 2, 5, 3, 6],
        [1, 6, 2, 7, 5, 4, 3, 9, 8],
        [3, 4, 8, 9, 2, 6, 7, 5, 1],
        [5, 9, 7, 3, 8, 1, 6, 4, 2],
    ]
}

fn peers_hold(puzzle: &[[i32; 9]; 9], r: usize, c: usize, d: i32) -> bool {
    for k in 0..9 {
        if puzzle[r][k] == d || puzzle[k][c] == d {
            return true;
        }
        if puzzle[r / 3 * 3 + k / 3][c / 3 * 3 + k % 3] == d {
            return true;
        }
    }
    false
}

#[test]
fn candidates_of_first_cell_of_standard_puzzle() {
    let board = SudokuBoard::from_puzzle(standard_puzzle());
    assert_eq!(board.possible_solutions[0][0], vec![1, 3, 5, 8]);
    let lists = SudokuBoard::calc_possible_solutions(&board);
    assert_eq!(lists[0][0], vec![1, 3, 5, 8]);
    assert_eq!(lists[0][1], vec![1, 3, 9]);
    assert_eq!(lists[2][0], vec![1, 3, 5, 6]);
}

#[test]
fn solved_grid_has_no_candidates() {
    let board = SudokuBoard::from_puzzle(solved_grid());
    for r in 0..9 {
        for c in 0..9 {
            assert!(board.possible_solutions[r][c].is_empty());
        }
    }
}

#[test]
fn candidates_are_exactly_the_digits_no_peer_holds() {
    let puzzle = standard_puzzle();
    let board = SudokuBoard::from_puzzle(puzzle);
    for r in 0..9 {
        for c in 0..9 {
            let list = &board.possible_solutions[r][c];
            for d in 1..10 {
                let expected = puzzle[r][c] == 0 && !peers_hold(&puzzle, r, c, d);
                assert_eq!(list.contains(&d), expected);
            }
            for k in 1..list.len() {
                assert!(list[k - 1] < list[k]);
            }
            assert!(list.iter().all(|d| 1 <= *d && *d <= 9));
        }
    }
}

#[test]
fn from_puzzle_keeps_the_grid() {
    let board = SudokuBoard::from_puzzle(standard_puzzle());
    assert_eq!(board.puzzle, standard_puzzle());
    assert!(!board.needs_solving);
}

#[test]
fn existing_values_are_sorted_and_listed_once() {
    let puzzle = standard_puzzle();
    assert_eq!(SudokuBoard::get_existing_values(&puzzle, 0, 0), vec![2, 4, 6, 7, 9]);
    assert_eq!(SudokuBoard::get_existing_values(&puzzle, 4, 4), vec![1, 2, 4, 7, 8, 9]);
    assert_eq!(SudokuBoard::get_existing_values(&puzzle, 8, 8), vec![1, 4, 8]);
    assert_eq!(SudokuBoard::get_existing_values(&[[0; 9]; 9], 3, 5), Vec::<i32>::new());
}

#[test]
fn existing_values_include_the_cell_itself() {
    let puzzle = standard_puzzle();
    assert_eq!(SudokuBoard::get_existing_values(&puzzle, 0, 2), vec![2, 4, 6, 7]);
}

#[test]
fn existing_values_skip_what_is_below_one() {
    let mut puzzle = [[0; 9]; 9];
    puzzle[0][3] = -4;
    puzzle[5][0] = 12;
    puzzle[1][1] = 3;
    assert_eq!(SudokuBoard::get_existing_values(&puzzle, 0, 0), vec![3, 12]);
}

#[test]
fn inverse_values_are_the_missing_digits() {
    assert_eq!(SudokuBoard::get_inverse_values(vec![2, 4, 6, 7, 9]), vec![1, 3, 5, 8]);
    assert_eq!(SudokuBoard::get_inverse_values(vec![]), vec![1, 2, 3, 4, 5, 6, 7, 8, 9]);
    assert_eq!(
        SudokuBoard::get_inverse_values(vec![1, 2, 3, 4, 5, 6, 7, 8, 9]),
        Vec::<i32>::new()
    );
    assert_eq!(SudokuBoard::get_inverse_values(vec![9, 9, 0, 10, -1, 1]), vec![2, 3, 4, 5, 6, 7, 8]);
}

#[test]
fn list_contains_finds_members_only() {
    let list = vec![1, 3, 5, 8];
    assert!(list_contains(&list, 1));
    assert!(list_contains(&list, 8));
    assert!(!list_contains(&list, 4));
    assert!(!list_contains(&Vec::new(), 4));
}

#[test]
fn insert_ascending_keeps_order_and_skips_repeats() {
    let mut list: Vec<i32> = Vec::new();
    for x in [5, 1, 9, 5, 3, 1, 7] {
        insert_ascending(&mut list, x);
    }
    assert_eq!(list, vec![1, 3, 5, 7, 9]);
    insert_ascending(&mut list, 10);
    insert_ascending(&mut list, 0);
    assert_eq!(list, vec![0, 1, 3, 5, 7, 9, 10]);
}
