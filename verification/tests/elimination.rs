use sudoku::SudokuBoard;

fn standard_puzzle() -> [[i32; 9]; 9] {
    [
        [0, 0, 4, 0, 0, 0, 6, 0, 0],
        [2, 7, 0, 0, 0, 0, 0, 9, 0],
        [0, 0, 0, 2, 8, 0, 0, 0, 0],
        [0, 0, 6, 0, 9, 0, 1, 7, 0],
        [4, 0, 0, 0, 0, 0, 0, 0, 0],
        [0, 0, 0, 0, 7, 2, 0, 0, 4],
        [0, 8, 0, 3, 0, 4, 0, 0, 0],
        [9, 5, 0, 0, 0, 0, 0, 8, 0],
        [0, 0, 0, 0, 1, 0, 0, 0, 0],
    ]
}

fn easy_puzzle() -> [[i32; 9]; 9] {
    [
        [0, 6, 0, 0, 3, 0, 8, 7, 0],
        [0, 0, 0, 2, 0, 0, 1, 4, 3],
        [0, 1, 7, 0, 5, 8, 0, 0, 0],
        [0, 7, 0, 0, 0, 1, 0, 2, 8],
        [9, 5, 4, 0, 8, 0, 0, 0, 0],
        [8, 0, 0, 6, 0, 7, 3, 0, 4],
        [0, 4, 0, 9, 0, 0, 2, 8, 1],
        [0, 0, 9, 0, 1, 4, 0, 0, 7],
        [1, 0, 6, 7, 0, 0, 4, 0, 0],
    ]
}

fn standard_after_elimination() -> Vec<Vec<Vec<i32>>> {
    vec![
        vec![
            vec![1, 3, 5, 8],
            vec![1, 3, 9],
            vec![],
            vec![1, 5, 7, 9],
            vec![3, 5],
            vec![1, 3, 5, 7, 9],
            vec![],
            vec![1, 2, 3, 5],
            vec![1, 2, 3, 5, 7, 8],
        ],
        vec![
            vec![],
            vec![],
            vec![1, 3, 5, 8],
            vec![1, 5, 6],
            vec![3, 4, 5, 6],
            vec![1, 3, 5, 6],
            vec![3, 5, 8],
            vec![],
            vec![1, 3, 5, 8],
        ],
        vec![
            vec![1, 3, 5, 6],
            vec![1, 3, 6, 9],
            vec![1, 3, 5, 9],
            vec![],
            vec![],
            vec![1, 3, 5, 7, 9],
            vec![3, 4, 5, 7],
            vec![1, 3, 4, 5],
            vec![1, 3, 5, 7],
        ],
        vec![
            vec![3, 5, 8],
            vec![2, 3],
            vec![],
            vec![4, 5, 8],
            vec![],
            vec![3, 5, 8],
            vec![],
            vec![],
            vec![2, 3, 5, 8],
        ],
        vec![
            vec![],
            vec![1, 2, 3, 9],
            vec![1, 2, 3, 5, 7, 8, 9],
            vec![1, 5, 6, 8],
            vec![3, 5, 6],
            vec![1, 3, 5, 6, 8],
            vec![2, 3, 5, 8, 9],
            vec![2, 3, 5, 6],
            vec![2, 3, 5, 6, 8, 9],
        ],
        vec![
            vec![1, 3, 5, 8],
            vec![1, 3, 9],
            vec![1, 3, 5, 8, 9],
            vec![1, 5, 6, 8],
            vec![],
            vec![],
            vec![3, 5, 8, 9],
            vec![3, 5, 6],
            vec![],
        ],
        vec![
            vec![1, 6, 7],
            vec![],
            vec![1, 2],
            vec![],
            vec![2, 5, 6],
            vec![],
            vec![2, 5, 7, 9],
            vec![1, 2, 5, 6],
            vec![1, 2, 5, 6, 7, 9],
        ],
        vec![
            vec![],
            vec![],
            vec![1, 2, 3],
            vec![6, 7],
            vec![2, 6],
            vec![6, 7],
            vec![2, 3, 4, 7],
            vec![],
            vec![1, 2, 3, 6, 7],
        ],
        vec![
            vec![3, 6, 7],
            vec![2, 3, 4, 6],
            vec![2, 3],
            vec![5, 6, 7, 8, 9],
            vec![],
            vec![5, 6, 7, 8, 9],
            vec![2, 3, 5, 7],
            vec![2, 3, 5, 6],
            vec![2, 3, 5, 6, 7],
        ],
    ]
}

fn lists_of(board: &SudokuBoard) -> Vec<Vec<Vec<i32>>> {
    board.possible_solutions.iter().map(|row| row.to_vec()).collect()
}

fn scheduled(removals: &Vec<(usize, usize, i32)>) -> Vec<(usize, usize, i32)> {
    let mut set = removals.clone();
    set.sort();
    set.dedup();
    set
}

#[test]
fn elimination_on_standard_puzzle() {
    let mut board = SudokuBoard::from_puzzle(standard_puzzle());
    let before = lists_of(&board);
    SudokuBoard::eliminate_locked_candidates(&mut board);
    assert_eq!(lists_of(&board), standard_after_elimination());
    assert_eq!(board.puzzle, standard_puzzle());
    assert!(!board.needs_solving);
    assert_eq!(before[1][3], vec![1, 4, 5, 6]);
    assert_eq!(board.possible_solutions[1][3], vec![1, 5, 6]);
    assert_eq!(before[6][2], vec![1, 2, 7]);
    assert_eq!(board.possible_solutions[6][2], vec![1, 2]);
}

#[test]
fn removals_of_standard_puzzle() {
    let board = SudokuBoard::from_puzzle(standard_puzzle());
    let removals = board.locked_candidate_removals();
    let expected: Vec<(usize, usize, i32)> = vec![
        (0, 0, 2),
        (0, 1, 2),
        (0, 1, 4),
        (0, 2, 2),
        (0, 2, 7),
        (0, 3, 2),
        (0, 3, 4),
        (0, 4, 2),
        (0, 5, 2),
        (1, 0, 4),
        (1, 1, 4),
        (1, 2, 4),
        (1, 2, 7),
        (1, 3, 4),
        (1, 4, 2),
        (1, 6, 4),
        (1, 7, 4),
        (1, 8, 4),
        (2, 1, 4),
        (2, 2, 7),
        (2, 3, 4),
        (2, 3, 6),
        (2, 4, 2),
        (2, 4, 6),
        (2, 5, 6),
        (2, 6, 6),
        (2, 7, 6),
        (2, 8, 6),
        (3, 0, 4),
        (3, 1, 4),
        (3, 2, 4),
        (3, 4, 2),
        (3, 6, 4),
        (3, 7, 4),
        (3, 8, 4),
        (4, 1, 4),
        (4, 3, 7),
        (4, 4, 2),
        (4, 4, 7),
        (4, 5, 7),
        (4, 6, 7),
        (4, 7, 7),
        (4, 8, 7),
        (5, 1, 4),
        (5, 4, 2),
        (6, 2, 7),
        (6, 3, 4),
        (7, 2, 7),
        (7, 3, 4),
        (8, 0, 8),
        (8, 0, 9),
        (8, 1, 8),
        (8, 1, 9),
        (8, 2, 7),
        (8, 2, 8),
        (8, 2, 9),
        (8, 3, 4),
        (8, 4, 4),
        (8, 5, 4),
        (8, 6, 4),
        (8, 6, 8),
        (8, 6, 9),
        (8, 7, 4),
        (8, 7, 8),
        (8, 7, 9),
        (8, 8, 4),
        (8, 8, 8),
        (8, 8, 9),
    ];
    assert_eq!(scheduled(&removals), expected);
}

#[test]
fn removals_reach_the_first_row_and_column() {
    let board = SudokuBoard::from_puzzle(standard_puzzle());
    let removals = board.locked_candidate_removals();
    assert!(removals.contains(&(0, 0, 2)));
    assert!(removals.contains(&(1, 0, 4)));
    assert!(removals.contains(&(0, 3, 4)));

    let mut easy = SudokuBoard::from_puzzle(easy_puzzle());
    assert_eq!(easy.possible_solutions[0][0], vec![2, 4, 5]);
    assert_eq!(easy.possible_solutions[0][2], vec![2, 5]);
    SudokuBoard::eliminate_locked_candidates(&mut easy);
    assert_eq!(easy.possible_solutions[0][0], vec![2, 4]);
    assert_eq!(easy.possible_solutions[0][2], vec![2]);
    assert_eq!(easy.possible_solutions[0][8], vec![2, 5, 9]);
}

#[test]
fn removals_are_decided_on_the_lists_before_the_pass() {
    let board = SudokuBoard::from_puzzle(standard_puzzle());
    let removals = scheduled(&board.locked_candidate_removals());
    let mut after = board.clone();
    SudokuBoard::eliminate_locked_candidates(&mut after);
    for r in 0..9 {
        for c in 0..9 {
            for d in 1..10 {
                let kept = board.possible_solutions[r][c].contains(&d)
                    && !removals.contains(&(r, c, d));
                assert_eq!(after.possible_solutions[r][c].contains(&d), kept);
            }
        }
    }
}

#[test]
fn removals_stay_on_the_grid() {
    let board = SudokuBoard::from_puzzle(standard_puzzle());
    for (r, c, d) in board.locked_candidate_removals() {
        assert!(r < 9 && c < 9);
        assert!(1 <= d && d <= 9);
    }
    let empty = SudokuBoard::new();
    assert!(empty.locked_candidate_removals().is_empty());
}

#[test]
fn locked_candidates_of_a_small_table() {
    let mut board = SudokuBoard::new();
    board.possible_solutions[4][3] = vec![2, 5];
    board.possible_solutions[4][5] = vec![5];
    board.possible_solutions[3][4] = vec![2];
    board.possible_solutions[4][0] = vec![5, 6];
    board.possible_solutions[4][8] = vec![2, 5];
    board.possible_solutions[0][4] = vec![2, 5];
    let expected: Vec<(usize, usize, i32)> = vec![
        (0, 0, 2),
        (0, 0, 5),
        (0, 0, 6),
        (0, 1, 2),
        (0, 1, 5),
        (0, 2, 2),
        (0, 2, 5),
        (0, 6, 2),
        (0, 6, 5),
        (0, 7, 2),
        (0, 7, 5),
        (0, 8, 2),
        (0, 8, 5),
        (1, 0, 5),
        (1, 0, 6),
        (1, 8, 2),
        (1, 8, 5),
        (2, 0, 5),
        (2, 0, 6),
        (2, 8, 2),
        (2, 8, 5),
        (3, 4, 2),
        (3, 4, 5),
        (4, 0, 2),
        (4, 0, 5),
        (4, 1, 2),
        (4, 1, 5),
        (4, 2, 2),
        (4, 2, 5),
        (4, 3, 2),
        (4, 3, 5),
        (4, 3, 6),
        (4, 4, 2),
        (4, 4, 5),
        (4, 4, 6),
        (4, 5, 2),
        (4, 5, 5),
        (4, 5, 6),
        (4, 6, 5),
        (4, 6, 6),
        (4, 7, 5),
        (4, 7, 6),
        (4, 8, 5),
        (4, 8, 6),
        (5, 4, 2),
        (5, 4, 5),
        (6, 0, 5),
        (6, 0, 6),
        (6, 4, 2),
        (6, 4, 5),
        (6, 8, 2),
        (6, 8, 5),
        (7, 0, 5),
        (7, 0, 6),
        (7, 4, 2),
        (7, 4, 5),
        (7, 8, 2),
        (7, 8, 5),
        (8, 0, 5),
        (8, 0, 6),
        (8, 4, 2),
        (8, 4, 5),
        (8, 8, 2),
        (8, 8, 5),
    ];
    assert_eq!(scheduled(&board.locked_candidate_removals()), expected);
    SudokuBoard::eliminate_locked_candidates(&mut board);
    assert_eq!(board.possible_solutions[0][4], vec![2, 5]);
    assert_eq!(board.possible_solutions[3][4], Vec::<i32>::new());
    assert_eq!(board.possible_solutions[4][0], vec![6]);
    assert_eq!(board.possible_solutions[4][3], Vec::<i32>::new());
    assert_eq!(board.possible_solutions[4][5], Vec::<i32>::new());
    assert_eq!(board.possible_solutions[4][8], vec![2]);
    assert_eq!(board.puzzle, [[0; 9]; 9]);
}

#[test]
fn removal_of_an_absent_value_changes_nothing() {
    let board = SudokuBoard::from_puzzle(standard_puzzle());
    assert_eq!(SudokuBoard::remove_possible_value_from_cell(&board, 2, 0, 0), vec![1, 3, 5, 8]);
    assert_eq!(SudokuBoard::remove_possible_value_from_cell(&board, 8, 0, 0), vec![1, 3, 5]);
    assert_eq!(SudokuBoard::remove_possible_value_from_cell(&board, 4, 0, 2), Vec::<i32>::new());
}

#[test]
fn removal_keeps_digits_only_and_sorts_them() {
    let mut board = SudokuBoard::new();
    board.possible_solutions[3][3] = vec![9, 12, 4, 4, 0, -1, 7];
    assert_eq!(SudokuBoard::remove_possible_value_from_cell(&board, 7, 3, 3), vec![0, 4, 9]);
}
