use sudoku_solver::solve;
use sudoku_solver::solver::Candidates;
use sudoku_solver::solver::StateManager;
use sudoku_solver::Matrix;

/// Check that the grid is a complete solution: all cells hold 1..=9 and no
/// row, column or block repeats a digit (so each digit appears exactly once
/// in every unit).
fn assert_solved(m: &Matrix) {
    for y in 0..9 {
        for x in 0..9 {
            assert!(m[y][x] >= 1 && m[y][x] <= 9);
        }
    }
    for y in 0..9 {
        let mut seen: [bool; 10] = [false; 10];
        for x in 0..9 {
            let v: usize = m[y][x] as usize;
            assert!(!seen[v]);
            seen[v] = true;
        }
    }
    for x in 0..9 {
        let mut seen: [bool; 10] = [false; 10];
        for y in 0..9 {
            let v: usize = m[y][x] as usize;
            assert!(!seen[v]);
            seen[v] = true;
        }
    }
    for by in 0..3 {
        for bx in 0..3 {
            let mut seen: [bool; 10] = [false; 10];
            for dy in 0..3 {
                for dx in 0..3 {
                    let v: usize = m[3 * by + dy][3 * bx + dx] as usize;
                    assert!(!seen[v]);
                    seen[v] = true;
                }
            }
        }
    }
}

/// A complete valid grid: the classic shifted-rows construction.
fn complete_grid() -> Matrix {
    let mut m: Matrix = [[0; 9]; 9];
    for y in 0..9 {
        for x in 0..9 {
            m[y][x] = ((3 * y + y / 3 + x) % 9) as u8 + 1;
        }
    }
    m
}

#[test]
fn empty_grid_solves() {
    let mut m: Matrix = [[0; 9]; 9];
    assert!(solve(&mut m));
    assert_solved(&m);
}

#[test]
fn complete_valid_grid_solves_to_itself() {
    let mut m: Matrix = complete_grid();
    let given: Matrix = m;
    assert!(solve(&mut m));
    assert_eq!(m, given);
    assert_solved(&m);
}

#[test]
fn duplicate_in_row_fails_and_preserves_input() {
    let mut m: Matrix = [[0; 9]; 9];
    m[4][1] = 9;
    m[4][7] = 9;
    let given: Matrix = m;
    assert!(!solve(&mut m));
    assert_eq!(m, given);
}

#[test]
fn duplicate_in_column_fails() {
    let mut m: Matrix = [[0; 9]; 9];
    m[0][3] = 5;
    m[8][3] = 5;
    assert!(!solve(&mut m));
    assert_eq!(m[0][3], 5);
    assert_eq!(m[8][3], 5);
}

#[test]
fn duplicate_in_block_fails() {
    let mut m: Matrix = [[0; 9]; 9];
    m[0][0] = 7;
    m[2][2] = 7;
    assert!(!solve(&mut m));
    assert_eq!(m[0][0], 7);
    assert_eq!(m[2][2], 7);
}

#[test]
fn failure_zeroes_out_of_range_cells() {
    let mut m: Matrix = [[0; 9]; 9];
    m[3][0] = 4;
    m[3][8] = 4;
    m[5][5] = 200;
    m[6][6] = 10;
    assert!(!solve(&mut m));
    assert_eq!(m[3][0], 4);
    assert_eq!(m[3][8], 4);
    assert_eq!(m[5][5], 0);
    assert_eq!(m[6][6], 0);
}

#[test]
fn out_of_range_values_are_treated_as_empty() {
    let mut m: Matrix = complete_grid();
    let expected: u8 = m[2][7];
    m[2][7] = 255;
    assert!(solve(&mut m));
    // The only digit that completes the unit is the one that was removed.
    assert_eq!(m[2][7], expected);
    assert_solved(&m);
}

#[test]
fn puzzle_with_given_digits_solves() {
    let mut m: Matrix = [
        [0, 8, 0, 0, 0, 0, 1, 5, 0],
        [4, 0, 6, 5, 0, 9, 0, 8, 0],
        [0, 0, 0, 0, 0, 8, 0, 0, 0],
        [0, 0, 0, 0, 0, 0, 0, 0, 0],
        [0, 0, 2, 0, 4, 0, 0, 0, 3],
        [3, 0, 0, 8, 0, 1, 0, 0, 0],
        [9, 0, 0, 0, 7, 0, 0, 0, 0],
        [6, 0, 0, 0, 0, 0, 0, 0, 4],
        [1, 5, 0, 0, 0, 0, 0, 9, 0],
    ];
    let given: Matrix = m;
    assert!(solve(&mut m));
    assert_solved(&m);
    for y in 0..9 {
        for x in 0..9 {
            if given[y][x] >= 1 && given[y][x] <= 9 {
                assert_eq!(m[y][x], given[y][x]);
            }
        }
    }
}

#[test]
fn tracker_set_rejects_repeated_digit() {
    let mut t: StateManager = StateManager::new();
    assert!(t.set(0, 0, 5));
    // Same row, same column, same block: all three refuse the digit again.
    assert!(!t.set(8, 0, 5));
    assert!(!t.set(0, 8, 5));
    assert!(!t.set(1, 1, 5));
    // A different digit in the same cell area is fine.
    assert!(t.set(8, 0, 6));
}

#[test]
fn tracker_remove_undoes_set() {
    let mut t: StateManager = StateManager::new();
    assert!(t.set(4, 4, 3));
    assert!(!t.set(4, 8, 3));
    t.remove(4, 4, 3);
    assert!(t.set(4, 8, 3));
}

#[test]
fn num_candidates_counts_free_digits() {
    let mut t: StateManager = StateManager::new();
    assert_eq!(t.num_candidates(0, 0), 9);
    assert!(t.set(3, 0, 1));
    assert!(t.set(0, 3, 2));
    assert_eq!(t.num_candidates(0, 0), 7);
    // Digits already blocked do not count twice.
    assert!(t.set(4, 0, 2));
    assert_eq!(t.num_candidates(0, 0), 7);
}

#[test]
fn fully_blocked_cell_has_no_candidates() {
    let mut t: StateManager = StateManager::new();
    // Row 0 holds 1, 2, 3; column 0 holds 4, 5, 6; block (0, 0) holds 7, 8, 9.
    assert!(t.set(3, 0, 1));
    assert!(t.set(4, 0, 2));
    assert!(t.set(5, 0, 3));
    assert!(t.set(0, 3, 4));
    assert!(t.set(0, 4, 5));
    assert!(t.set(0, 5, 6));
    assert!(t.set(1, 1, 7));
    assert!(t.set(2, 1, 8));
    assert!(t.set(2, 2, 9));
    assert_eq!(t.num_candidates(0, 0), 0);
    let mut c: Candidates = t.candidates(0, 0);
    assert_eq!(c.next(), None);
}

#[test]
fn candidates_yield_free_digits_ascending() {
    let mut c: Candidates = Candidates::new(0);
    for d in 1..=9u8 {
        assert_eq!(c.next(), Some(d));
    }
    assert_eq!(c.next(), None);
    // Bits 0, 2, 4, 6, 8 set: digits 1, 3, 5, 7, 9 are excluded.
    let mut c2: Candidates = Candidates::new(0b1_0101_0101);
    assert_eq!(c2.next(), Some(2));
    assert_eq!(c2.next(), Some(4));
    assert_eq!(c2.next(), Some(6));
    assert_eq!(c2.next(), Some(8));
    assert_eq!(c2.next(), None);
}

#[test]
fn candidates_reflect_tracker_state() {
    let mut t: StateManager = StateManager::new();
    assert!(t.set(2, 6, 4));
    assert!(t.set(6, 7, 9));
    let mut c: Candidates = t.candidates(6, 6);
    // 4 is in row 6; 9 is in column 6 and in block (2, 2).
    assert_eq!(c.next(), Some(1));
    assert_eq!(c.next(), Some(2));
    assert_eq!(c.next(), Some(3));
    assert_eq!(c.next(), Some(5));
    assert_eq!(c.next(), Some(6));
    assert_eq!(c.next(), Some(7));
    assert_eq!(c.next(), Some(8));
    assert_eq!(c.next(), None);
}

#[test]
fn repeated_solve_yields_the_same_outcome() {
    let mut first: Matrix = [[0; 9]; 9];
    first[0][0] = 3;
    first[5][5] = 7;
    let mut second: Matrix = first;
    let r1: bool = solve(&mut first);
    let r2: bool = solve(&mut second);
    assert_eq!(r1, r2);
    assert!(r1);
    assert_eq!(first, second);
    // An unsolvable input also repeats its outcome and its restored grid.
    let mut bad1: Matrix = [[0; 9]; 9];
    bad1[1][0] = 2;
    bad1[1][8] = 2;
    let mut bad2: Matrix = bad1;
    assert!(!solve(&mut bad1));
    assert!(!solve(&mut bad2));
    assert_eq!(bad1, bad2);
}

#[test]
fn almost_complete_grid_fills_last_row() {
    let mut m: Matrix = complete_grid();
    for x in 0..9 {
        m[8][x] = 0;
    }
    let expected: Matrix = complete_grid();
    assert!(solve(&mut m));
    assert_eq!(m, expected);
}
