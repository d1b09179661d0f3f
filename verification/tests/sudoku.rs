use sudoku::grid::Sudoku;
use sudoku::tile::{GridError, Mode, Tile};

fn digit(d: usize) -> Tile {
    match d {
        1 => Tile::One,
        2 => Tile::Two,
        3 => Tile::Three,
        4 => Tile::Four,
        5 => Tile::Five,
        6 => Tile::Six,
        7 => Tile::Seven,
        8 => Tile::Eight,
        9 => Tile::Nine,
        _ => Tile::Empty,
    }
}

/// A classic valid complete sudoku: row r, column c holds
/// ((r * 3 + r / 3 + c) % 9) + 1.
fn solved_grid_values() -> Vec<usize> {
    let mut vals = Vec::new();
    for r in 0..9 {
        for c in 0..9 {
            vals.push((r * 3 + r / 3 + c) % 9 + 1);
        }
    }
    vals
}

fn board_from(vals: &[usize]) -> Sudoku {
    let mut s = Sudoku::new();
    for (i, &d) in vals.iter().enumerate() {
        if d != 0 {
            s.place_tile(digit(d), i).unwrap();
        }
    }
    s
}

fn boards_equal(a: &Sudoku, b: &Sudoku) -> bool {
    (0..81).all(|i| a.board[i] == b.board[i])
}

fn has_duplicate(cells: &[Tile]) -> bool {
    for i in 0..cells.len() {
        for j in 0..i {
            if cells[i] != Tile::Empty && cells[i] == cells[j] {
                return true;
            }
        }
    }
    false
}

/// Scan all 27 constraint groups for a duplicated digit.
fn groups_duplicate_free(s: &Sudoku) -> bool {
    for g in 0..9 {
        let row: Vec<Tile> = (0..9).map(|c| s.board[g * 9 + c]).collect();
        let col: Vec<Tile> = (0..9).map(|r| s.board[r * 9 + g]).collect();
        let mut boxed = Vec::new();
        let br = (g / 3) * 3;
        let bc = (g % 3) * 3;
        for r in br..br + 3 {
            for c in bc..bc + 3 {
                boxed.push(s.board[r * 9 + c]);
            }
        }
        if has_duplicate(&row) || has_duplicate(&col) || has_duplicate(&boxed) {
            return false;
        }
    }
    true
}

fn filled_cells(s: &Sudoku) -> usize {
    (0..81).filter(|&i| s.board[i] != Tile::Empty).count()
}

#[test]
fn place_then_remove_restores_the_board() {
    let mut s = Sudoku::new();
    let before: Vec<Tile> = s.board.clone();
    assert_eq!(s.place_tile(Tile::Seven, 40), Ok(40));
    assert_eq!(s.board[40], Tile::Seven);
    assert_eq!(s.remove_tile(40), Ok(Tile::Seven));
    for i in 0..81 {
        assert_eq!(s.board[i], before[i]);
    }
    assert_eq!(s.count, 0);
}

#[test]
fn place_on_occupied_cell_fails() {
    let mut s = Sudoku::new();
    assert_eq!(s.place_tile(Tile::One, 5), Ok(5));
    assert_eq!(s.place_tile(Tile::Two, 5), Err(GridError::OccupiedCell));
    assert_eq!(s.board[5], Tile::One);
}

#[test]
fn remove_on_empty_cell_fails() {
    let mut s = Sudoku::new();
    assert_eq!(s.remove_tile(17), Err(GridError::AlreadyEmpty));
    assert_eq!(s.board[17], Tile::Empty);
}

#[test]
fn find_empty_scans_in_ascending_index_order() {
    let mut s = Sudoku::new();
    assert_eq!(s.find_empty(), Some(0));
    s.place_tile(Tile::One, 0).unwrap();
    assert_eq!(s.find_empty(), Some(1));
    s.place_tile(Tile::Two, 1).unwrap();
    s.place_tile(Tile::Three, 3).unwrap();
    assert_eq!(s.find_empty(), Some(2));
    let full = board_from(&solved_grid_values());
    assert_eq!(full.find_empty(), None);
    assert!(full.is_full());
    assert!(!s.is_full());
}

#[test]
fn check_legal_blocks_row_column_and_box() {
    let mut s = Sudoku::new();
    s.place_tile(Tile::Five, 0).unwrap();
    assert!(!s.check_legal(Tile::Five, 8)); // same row
    assert!(!s.check_legal(Tile::Five, 72)); // same column
    assert!(!s.check_legal(Tile::Five, 10)); // same box
    assert!(s.check_legal(Tile::Five, 40)); // unconstrained cell
    assert!(s.check_legal(Tile::One, 8)); // different digit
}

#[test]
fn gen_legal_moves_lists_candidates_in_enumeration_order() {
    let mut s = Sudoku::new();
    for (i, d) in [1, 2, 3, 4, 5, 6, 7].iter().enumerate() {
        s.place_tile(digit(*d), i).unwrap();
    }
    let moves = s.gen_legal_moves(7).unwrap();
    assert_eq!(moves, vec![Tile::Eight, Tile::Nine]);
}

#[test]
fn gen_legal_moves_none_when_no_digit_fits() {
    let mut s = Sudoku::new();
    for (i, d) in [2, 3, 4, 5, 6, 7, 8, 9].iter().enumerate() {
        s.place_tile(digit(*d), i + 1).unwrap();
    }
    s.place_tile(Tile::One, 9).unwrap(); // blocks the last digit via the column
    assert!(s.gen_legal_moves(0).is_none());
}

#[test]
fn solve_returns_a_full_valid_grid_unchanged() {
    let vals = solved_grid_values();
    let mut s = board_from(&vals);
    let reference = board_from(&vals);
    assert!(groups_duplicate_free(&s));
    assert!(s.solve());
    assert!(boards_equal(&s, &reference));
}

#[test]
fn solve_fills_a_single_hole_with_the_missing_digit() {
    let mut vals = solved_grid_values();
    let missing = vals[40];
    vals[40] = 0;
    let mut s = board_from(&vals);
    assert!(s.solve());
    assert_eq!(s.board[40], digit(missing));
    let reference = board_from(&solved_grid_values());
    assert!(boards_equal(&s, &reference));
}

#[test]
fn solve_is_deterministic_across_runs() {
    // Many completions exist for the empty board; the fixed candidate
    // order must converge to the same one every time.
    let mut a = Sudoku::new();
    let mut b = Sudoku::new();
    assert!(a.solve());
    assert!(b.solve());
    assert!(boards_equal(&a, &b));
    assert!(a.is_full());
    assert!(groups_duplicate_free(&a));
    // The first row is filled left to right with the least legal digits.
    for c in 0..9 {
        assert_eq!(a.board[c], digit(c + 1));
    }
}

#[test]
fn check_board_reports_one_for_a_uniquely_completable_grid() {
    let mut vals = solved_grid_values();
    vals[40] = 0;
    let mut s = board_from(&vals);
    s.count = 0;
    assert!(!s.check_board());
    assert_eq!(s.count, 1);
    assert_eq!(s.board[40], Tile::Empty); // board restored
}

#[test]
fn check_board_saturates_at_two_when_two_digits_complete() {
    // Cell 0 is empty; its row, column and box hold between them exactly
    // the digits three to nine, so both One and Two complete the board.
    let mut vals = vec![3usize; 81];
    vals[0] = 0;
    let line = [3, 4, 5, 6, 7, 8, 9, 3];
    for (k, c) in (1..9).enumerate() {
        vals[c] = line[k];
    }
    for (k, c) in [9, 18, 27, 36, 45, 54, 63, 72].iter().enumerate() {
        vals[*c] = line[k];
    }
    vals[10] = 5;
    vals[11] = 6;
    vals[19] = 8;
    vals[20] = 9;
    let mut s = board_from(&vals);
    let moves = s.gen_legal_moves(0).unwrap();
    assert_eq!(moves, vec![Tile::One, Tile::Two]);
    s.count = 0;
    assert!(!s.check_board());
    assert_eq!(s.count, 2);
    assert_eq!(s.board[0], Tile::Empty); // board restored
}

#[test]
fn check_board_returns_true_at_once_on_a_full_grid() {
    let mut s = board_from(&solved_grid_values());
    s.count = 0;
    assert!(s.check_board());
    assert_eq!(s.count, 0);
}

#[test]
fn fill_board_from_empty_yields_full_duplicate_free_grid() {
    let mut s = Sudoku::new();
    assert!(s.fill_board());
    assert_eq!(filled_cells(&s), 81);
    assert!(groups_duplicate_free(&s));
}

fn assert_generated_puzzle_is_unique(mode: Mode) {
    let mut s = Sudoku::new();
    s.gen_board(mode);
    assert!(groups_duplicate_free(&s));
    // The dig always removes something: the first attempt lands on a
    // filled cell of the full board, and a single hole keeps uniqueness.
    assert!(filled_cells(&s) < 81);
    // The puzzle solves.
    let mut solved = board_from(&[]);
    for i in 0..81 {
        if s.board[i] != Tile::Empty {
            solved.place_tile(s.board[i], i).unwrap();
        }
    }
    assert!(solved.solve());
    assert!(solved.is_full());
    assert!(groups_duplicate_free(&solved));
    // And has exactly one completion.
    s.count = 0;
    s.check_board();
    assert_eq!(s.count, 1);
}

#[test]
fn generate_easy_gives_a_solvable_unique_puzzle() {
    assert_generated_puzzle_is_unique(Mode::Easy);
}

#[test]
fn generate_medium_gives_a_solvable_unique_puzzle() {
    assert_generated_puzzle_is_unique(Mode::Medium);
}

#[test]
fn generate_hard_gives_a_solvable_unique_puzzle() {
    assert_generated_puzzle_is_unique(Mode::Hard);
}
