use sudoku::{SolveOutcome, SudokuBoard};

fn expert_puzzle() -> [[i32; 9]; 9] {
    [
        [0, 3, 0, 8, 0, 7, 0, 0, 5],
        [0, 0, 0, 0, 0, 5, 0, 0, 3],
        [0, 0, 0, 6, 0, 0, 1, 0, 0],
        [6, 0, 0, 4, 0, 0, 2, 0, 0],
        [2, 0, 0, 0, 0, 0, 4, 8, 9],
        [0, 8, 0, 0, 0, 0, 0, 3, 0],
        [0, 0, 2, 7, 0, 0, 0, 0, 0],
        [0, 0, 0, 0, 0, 6, 0, 0, 0],
        [0, 9, 7, 0, 0, 0, 0, 4, 2],
    ]
}

fn expert_after_guess_of_one() -> [[i32; 9]; 9] {
    [
        [1, 3, 0, 8, 0, 7, 9, 0, 5],
        [0, 0, 0, 0, 0, 5, 8, 0, 3],
        [0, 0, 0, 6, 0, 0, 1, 0, 4],
        [6, 0, 0, 4, 0, 0, 2, 0, 0],
        [2, 0, 0, 0, 6, 0, 4, 8, 9],
        [0, 8, 0, 0, 0, 0, 0, 3, 6],
        [0, 6, 2, 7, 0, 4, 0, 0, 0],
        [0, 0, 0, 0, 0, 6, 0, 0, 0],
        [0, 9, 7, 0, 0, 0, 6, 4, 2],
    ]
}

fn stalled_puzzle() -> [[i32; 9]; 9] {
    [
        [0, 0, 0, 4, 5, 0, 0, 9, 0],
        [0, 2, 0, 0, 0, 0, 0, 8, 0],
        [3, 0, 6, 0, 0, 1, 5, 2, 7],
        [0, 9, 0, 5, 0, 7, 6, 0, 8],
        [0, 0, 0, 0, 2, 9, 0, 0, 0],
        [0, 0, 5, 0, 4, 8, 9, 0, 0],
        [0, 0, 0, 7, 0, 5, 0, 1, 0],
        [0, 5, 0, 0, 9, 0, 0, 0, 3],
        [0, 0, 4, 2, 0, 0, 8, 0, 0],
    ]
}

fn stalled_settled() -> [[i32; 9]; 9] {
    [
        [0, 0, 0, 4, 5, 2, 3, 9, 6],
        [5, 2, 9, 3, 7, 6, 0, 8, 0],
        [3, 4, 6, 9, 8, 1, 5, 2, 7],
        [0, 9, 0, 5, 3, 7, 6, 4, 8],
        [4, 0, 0, 6, 2, 9, 0, 0, 0],
        [0, 0, 5, 1, 4, 8, 9, 0, 2],
        [0, 0, 0, 7, 6, 5, 0, 1, 0],
        [0, 5, 0, 8, 9, 4, 0, 0, 3],
        [0, 0, 4, 2, 1, 3, 8, 0, 0],
    ]
}

fn stalled_completed() -> [[i32; 9]; 9] {
    [
        [7, 1, 8, 4, 5, 2, 3, 9, 6],
        [5, 2, 9, 3, 7, 6, 1, 8, 4],
        [3, 4, 6, 9, 8, 1, 5, 2, 7],
        [2, 9, 1, 5, 3, 7, 6, 4, 8],
        [4, 8, 3, 6, 2, 9, 7, 5, 1],
        [6, 7, 5, 1, 4, 8, 9, 3, 2],
        [8, 3, 2, 7, 6, 5, 4, 1, 9],
        [1, 5, 7, 8, 9, 4, 2, 6, 3],
        [9, 6, 4, 2, 1, 3, 8, 7, 5],
    ]
}

fn stalled_after_guess_of_two() -> [[i32; 9]; 9] {
    [
        [0, 1, 0, 4, 5, 2, 3, 9, 6],
        [5, 2, 9, 3, 7, 6, 0, 8, 0],
        [3, 4, 6, 9, 8, 1, 5, 2, 7],
        [2, 9, 1, 5, 3, 7, 6, 4, 8],
        [4, 0, 0, 6, 2, 9, 0, 0, 0],
        [0, 0, 5, 1, 4, 8, 9, 0, 2],
        [0, 0, 0, 7, 6, 5, 0, 1, 0],
        [1, 5, 0, 8, 9, 4, 0, 6, 3],
        [0, 0, 4, 2, 1, 3, 8, 0, 0],
    ]
}

fn sparse_puzzle() -> [[i32; 9]; 9] {
    [
        [0, 0, 0, 0, 0, 2, 0, 0, 6],
        [0, 0, 9, 0, 0, 0, 0, 0, 0],
        [3, 0, 0, 0, 8, 1, 5, 2, 0],
        [1, 0, 2, 0, 0, 0, 6, 0, 0],
        [4, 0, 0, 0, 0, 9, 0, 0, 1],
        [6, 0, 0, 0, 4, 8, 9, 0, 0],
        [0, 0, 8, 0, 6, 0, 0, 1, 0],
        [0, 5, 1, 8, 0, 4, 2, 6, 3],
        [9, 0, 0, 0, 0, 0, 8, 0, 0],
    ]
}

fn lists_of(board: &SudokuBoard) -> Vec<Vec<Vec<i32>>> {
    board.possible_solutions.iter().map(|row| row.to_vec()).collect()
}

#[test]
fn guess_completes_a_stalled_puzzle() {
    let mut board = SudokuBoard::from_puzzle(stalled_puzzle());
    SudokuBoard::solve_deterministic(&mut board);
    assert_eq!(board.puzzle, stalled_settled());
    assert!(!SudokuBoard::populated(&board));
    let mut solved_by = Vec::new();
    for digit in 1..10 {
        let attempt = SudokuBoard::solve_greedy(&board, digit, 3);
        if SudokuBoard::populated(&attempt) && SudokuBoard::validate_board(&attempt) {
            solved_by.push(digit);
            assert_eq!(attempt.puzzle, stalled_completed());
        }
    }
    assert_eq!(solved_by, vec![7]);
}

#[test]
fn guess_goes_into_the_first_eligible_cell() {
    let mut board = SudokuBoard::from_puzzle(stalled_puzzle());
    SudokuBoard::solve_deterministic(&mut board);
    assert!(board.possible_solutions[0][0].contains(&7));
    let attempt = SudokuBoard::solve_greedy(&board, 7, 3);
    assert_eq!(attempt.puzzle[0][0], 7);
    assert!(!board.possible_solutions[0][0].contains(&2));
    assert!(board.possible_solutions[3][0].contains(&2));
    let attempt = SudokuBoard::solve_greedy(&board, 2, 3);
    assert_eq!(attempt.puzzle[3][0], 2);
    assert_eq!(attempt.puzzle, stalled_after_guess_of_two());
    assert!(!SudokuBoard::populated(&attempt));
}

#[test]
fn guess_is_returned_complete_or_not() {
    let mut board = SudokuBoard::from_puzzle(expert_puzzle());
    SudokuBoard::solve_deterministic(&mut board);
    assert_eq!(board.possible_solutions[0][0], vec![1, 4]);
    let attempt = SudokuBoard::solve_greedy(&board, 1, 3);
    assert_eq!(attempt.puzzle, expert_after_guess_of_one());
    assert!(!SudokuBoard::populated(&attempt));
    assert!(!attempt.needs_solving);
    let again = lists_of(&attempt);
    let mut settled = attempt.clone();
    SudokuBoard::solve_deterministic(&mut settled);
    assert_eq!(settled.puzzle, attempt.puzzle);
    assert_eq!(lists_of(&settled), again);
}

#[test]
fn guess_leaves_the_board_untouched() {
    let mut board = SudokuBoard::from_puzzle(stalled_puzzle());
    SudokuBoard::solve_deterministic(&mut board);
    let grid = board.puzzle;
    let lists = lists_of(&board);
    for digit in 1..10 {
        let _ = SudokuBoard::solve_greedy(&board, digit, 3);
        assert_eq!(board.puzzle, grid);
        assert_eq!(lists_of(&board), lists);
        assert!(!board.needs_solving);
    }
}

#[test]
fn no_eligible_cell_gives_an_unchanged_copy() {
    let mut board = SudokuBoard::from_puzzle(sparse_puzzle());
    SudokuBoard::solve_deterministic(&mut board);
    for digit in [1, 2, 9] {
        let attempt = SudokuBoard::solve_greedy(&board, digit, 3);
        assert_eq!(attempt.puzzle, board.puzzle);
        assert_eq!(lists_of(&attempt), lists_of(&board));
        assert_eq!(attempt.needs_solving, board.needs_solving);
    }
    let attempt = SudokuBoard::solve_greedy(&board, 3, 3);
    assert_ne!(attempt.puzzle, board.puzzle);
    assert_eq!(attempt.puzzle[0][4], 3);
}

#[test]
fn greed_level_limits_the_eligible_cells() {
    let mut board = SudokuBoard::from_puzzle(stalled_puzzle());
    SudokuBoard::solve_deterministic(&mut board);
    let attempt = SudokuBoard::solve_greedy(&board, 7, 0);
    assert_eq!(attempt.puzzle, board.puzzle);
    assert_eq!(lists_of(&attempt), lists_of(&board));
    let size = board.possible_solutions[0][0].len();
    let attempt = SudokuBoard::solve_greedy(&board, 7, size);
    assert_eq!(attempt.puzzle[0][0], 7);
    let mut first = None;
    for r in 0..9 {
        for c in 0..9 {
            let list = &board.possible_solutions[r][c];
            if first.is_none() && board.puzzle[r][c] == 0 && list.len() <= size - 1 && list.contains(&7) {
                first = Some((r, c));
            }
        }
    }
    let attempt = SudokuBoard::solve_greedy(&board, 7, size - 1);
    match first {
        Some((r, c)) => assert_eq!(attempt.puzzle[r][c], 7),
        None => assert_eq!(attempt.puzzle, board.puzzle),
    }
}

#[test]
fn digit_outside_one_to_nine_gives_an_unchanged_copy() {
    let board = SudokuBoard::from_puzzle(expert_puzzle());
    for digit in [0, 10, -3] {
        let attempt = SudokuBoard::solve_greedy(&board, digit, 9);
        assert_eq!(attempt.puzzle, board.puzzle);
        assert_eq!(lists_of(&attempt), lists_of(&board));
    }
}

#[test]
fn placed_cell_with_a_stale_list_is_not_eligible() {
    let mut board = SudokuBoard::new();
    board.puzzle[0][0] = 4;
    board.possible_solutions[0][0] = vec![6];
    let attempt = SudokuBoard::solve_greedy(&board, 6, 3);
    assert_eq!(attempt.puzzle, board.puzzle);
    assert_eq!(attempt.possible_solutions[0][0], vec![6]);
}

fn easy_puzzle() -> [[i32; 9]; 9] {
    [
        [0, 6, 0, 0, 3, 0, 8, 7, 0],
        [0, 0, 0, 2, 0, 0, 1, 4, 3],
        [0, 1, 7, 0, 5, 8, 0, 0, 0],
        [0, 7, 0, 0, 0, 1, 0, 2, 8],
        [9, 5, 4, 0, 8, 0, 0, 0, 0],
        [8, 0, 0, 6, 0, 7, 3, 0, 4],
        [0, 4, 0, 9, 0, 0, 2, 8, 1],
        [0, 0, 9, 0, 1, 4, 0, 0, 7],
        [1, 0, 6, 7, 0, 0, 4, 0, 0],
    ]
}

#[test]
fn outcome_of_a_puzzle_that_propagation_solves() {
    assert!(SudokuBoard::is_well_formed(&easy_puzzle()));
    let mut board = SudokuBoard::from_puzzle(easy_puzzle());
    let outcome = SudokuBoard::solve_or_guess(&mut board, 3);
    assert!(matches!(outcome, SolveOutcome::Propagated));
    assert!(SudokuBoard::complete_and_valid_board(&board));
    assert_eq!(board.puzzle[0], [4, 6, 2, 1, 3, 9, 8, 7, 5]);
}

#[test]
fn outcome_of_a_puzzle_that_one_guess_solves() {
    assert!(SudokuBoard::is_well_formed(&stalled_puzzle()));
    let mut board = SudokuBoard::from_puzzle(stalled_puzzle());
    let outcome = SudokuBoard::solve_or_guess(&mut board, 3);
    assert_eq!(board.puzzle, stalled_settled());
    match outcome {
        SolveOutcome::Guessed(digit, solved) => {
            assert_eq!(digit, 7);
            assert_eq!(solved.puzzle, stalled_completed());
            assert!(SudokuBoard::complete_and_valid_board(&solved));
        }
        _ => panic!("the guess of 7 completes this puzzle"),
    }
}

#[test]
fn outcome_of_the_expert_puzzle_at_greed_level_three() {
    assert!(SudokuBoard::is_well_formed(&expert_puzzle()));
    let mut board = SudokuBoard::from_puzzle(expert_puzzle());
    let outcome = SudokuBoard::solve_or_guess(&mut board, 3);
    assert!(matches!(outcome, SolveOutcome::Unsolved));
    assert!(!SudokuBoard::populated(&board));
    for digit in 1..10 {
        let attempt = SudokuBoard::solve_greedy(&board, digit, 3);
        assert!(!SudokuBoard::populated(&attempt));
    }
}

#[test]
fn complete_and_valid_needs_both() {
    let mut board = SudokuBoard::from_puzzle(stalled_completed());
    assert!(SudokuBoard::complete_and_valid_board(&board));
    board.puzzle[4][4] = 0;
    assert!(!SudokuBoard::complete_and_valid_board(&board));
    board.puzzle[4][4] = stalled_completed()[4][5];
    assert!(!SudokuBoard::complete_and_valid_board(&board));
}

#[test]
fn well_formed_puzzles_hold_digits_only() {
    assert!(SudokuBoard::is_well_formed(&[[0; 9]; 9]));
    assert!(SudokuBoard::is_well_formed(&[[9; 9]; 9]));
    let mut puzzle = [[0; 9]; 9];
    puzzle[8][8] = 10;
    assert!(!SudokuBoard::is_well_formed(&puzzle));
    puzzle[8][8] = -1;
    assert!(!SudokuBoard::is_well_formed(&puzzle));
    puzzle[8][8] = 9;
    puzzle[0][0] = 11;
    assert!(!SudokuBoard::is_well_formed(&puzzle));
}
