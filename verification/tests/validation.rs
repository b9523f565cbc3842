use sudoku::SudokuBoard;

fn solved_grid() -> [[i32; 9]; 9] {
    [
        [4, 3, 6, 8, 1, 7, 9, 2, 5],
        [7, 1, 9, 2, 4, 5, 8, 6, 3],
        [8, 2, 5, 6, 3, 9, 1, 7, 4],
        [6, 5, 3, 4, 9, 8, 2, 1, 7],
        [2, 7, 1, 5, 6, 3, 4, 8, 9],
        [9, 8, 4, 1, 7, 2, 5, 3, 6],
        [1, 6, 2, 7, 5, 4, 3, 9, 8],
        [3, 4, 8, 9, 2, 6, 7, 5, 1],
        [5, 9, 7, 3, 8, 1, 6, 4, 2],
    ]
}

fn board_of(puzzle: [[i32; 9]; 9]) -> SudokuBoard {
    SudokuBoard::from_puzzle(puzzle)
}

#[test]
pub fn valid_puzzle() {
    let board: SudokuBoard = SudokuBoard::from_puzzle([
        [4, 3, 6, 8, 1, 7, 9, 2, 5],
        [7, 1, 9, 2, 4, 5, 8, 6, 3],
        [8, 2, 5, 6, 3, 9, 1, 7, 4],
        [6, 5, 3, 4, 9, 8, 2, 1, 7],
        [2, 7, 1, 5, 6, 3, 4, 8, 9],
        [9, 8, 4, 1, 7, 2, 5, 3, 6],
        [1, 6, 2, 7, 5, 4, 3, 9, 8],
        [3, 4, 8, 9, 2, 6, 7, 5, 1],
        [5, 9, 7, 3, 8, 1, 6, 4, 2],
    ]);

    assert_eq!(SudokuBoard::validate_board(&board), true);
}

#[test]
pub fn invalid_puzzle() {
    let board: SudokuBoard = SudokuBoard::from_puzzle([
        [4, 3, 6, 8, 1, 7, 9, 2, 5],
        [7, 1, 6, 2, 4, 5, 8, 6, 3],
        [8, 2, 5, 6, 3, 9, 1, 7, 4],
        [6, 5, 3, 4, 9, 8, 2, 1, 7],
        [2, 7, 1, 5, 6, 3, 4, 8, 9],
        [9, 8, 4, 1, 7, 2, 5, 3, 6],
        [1, 6, 2, 7, 5, 4, 3, 9, 8],
        [3, 4, 8, 9, 2, 6, 7, 5, 1],
        [5, 9, 7, 3, 8, 1, 6, 4, 2],
    ]);

    assert_eq!(SudokuBoard::validate_board(&board), false);
}

#[test]
fn solved_grid_passes_every_check() {
    let board = board_of(solved_grid());
    assert!(SudokuBoard::populated(&board));
    assert!(SudokuBoard::validate_rows(&board));
    assert!(SudokuBoard::validate_columns(&board));
    assert!(SudokuBoard::validate_boxes(&board));
    assert!(SudokuBoard::validate_board(&board));
}

#[test]
fn any_repeat_in_a_row_fails() {
    let solved = solved_grid();
    for r in 0..9 {
        for c in 0..9 {
            let mut grid = solved;
            grid[r][c] = solved[r][(c + 1) % 9];
            let board = board_of(grid);
            assert!(!SudokuBoard::validate_rows(&board));
            assert!(!SudokuBoard::validate_board(&board));
        }
    }
}

#[test]
fn rows_alone_do_not_make_a_grid_valid() {
    let board = board_of([[1, 2, 3, 4, 5, 6, 7, 8, 9]; 9]);
    assert!(SudokuBoard::validate_rows(&board));
    assert!(!SudokuBoard::validate_columns(&board));
    assert!(!SudokuBoard::validate_boxes(&board));
    assert!(!SudokuBoard::validate_board(&board));
}

#[test]
fn columns_alone_do_not_make_a_grid_valid() {
    let mut grid = [[0; 9]; 9];
    for r in 0..9 {
        for c in 0..9 {
            grid[r][c] = r as i32 + 1;
        }
    }
    let board = board_of(grid);
    assert!(!SudokuBoard::validate_rows(&board));
    assert!(SudokuBoard::validate_columns(&board));
    assert!(!SudokuBoard::validate_boxes(&board));
    assert!(!SudokuBoard::validate_board(&board));
}

#[test]
fn repeat_inside_a_box_fails() {
    let mut grid = [[0; 9]; 9];
    for r in 0..9 {
        for c in 0..9 {
            grid[r][c] = ((r + c) % 9) as i32 + 1;
        }
    }
    let board = board_of(grid);
    assert!(SudokuBoard::validate_rows(&board));
    assert!(SudokuBoard::validate_columns(&board));
    assert!(!SudokuBoard::validate_boxes(&board));
    assert!(!SudokuBoard::validate_board(&board));
}

#[test]
fn boxes_alone_do_not_make_a_grid_valid() {
    let mut grid = [[0; 9]; 9];
    for r in 0..9 {
        for c in 0..9 {
            grid[r][c] = ((r % 3) * 3 + c % 3) as i32 + 1;
        }
    }
    let board = board_of(grid);
    assert!(!SudokuBoard::validate_rows(&board));
    assert!(!SudokuBoard::validate_columns(&board));
    assert!(SudokuBoard::validate_boxes(&board));
    assert!(!SudokuBoard::validate_board(&board));
}

#[test]
fn populated_sees_every_cell() {
    let solved = solved_grid();
    assert!(SudokuBoard::populated(&board_of(solved)));
    for (r, c) in [(0, 0), (0, 8), (4, 4), (8, 0), (8, 8)] {
        let mut grid = solved;
        grid[r][c] = 0;
        assert!(!SudokuBoard::populated(&board_of(grid)));
    }
    assert!(!SudokuBoard::populated(&SudokuBoard::new()));
}

#[test]
fn populated_reads_the_grid_only() {
    let mut board = board_of(solved_grid());
    board.possible_solutions[3][3] = vec![1, 2];
    board.needs_solving = true;
    assert!(SudokuBoard::populated(&board));
}
