//! Runtime checks of the solver on concrete boards.

use sudoku::solver::{solve, solve_cell};

/// Builds the flat board from nine rows of nine digit characters
/// (`'0'` marks an empty cell).
fn board(rows: [&str; 9]) -> Vec<u8> {
    let mut cells: Vec<u8> = Vec::new();
    for row in rows.iter() {
        assert_eq!(row.len(), 9);
        for ch in row.chars() {
            let d = ch.to_digit(10).expect("digit") as u8;
            cells.push(d);
        }
    }
    assert_eq!(cells.len(), 81);
    cells
}

/// The first solution of the empty board under row-major,
/// ascending-candidate search.
fn first_full_grid() -> Vec<u8> {
    board([
        "123456789",
        "456789123",
        "789123456",
        "214365897",
        "365897214",
        "897214365",
        "531642978",
        "642978531",
        "978531642",
    ])
}

/// Checks that every cell holds 1..=9 and no row, column or box repeats
/// a digit.
fn assert_valid_solution(g: &Vec<u8>) {
    assert_eq!(g.len(), 81);
    for &x in g.iter() {
        assert!((1..=9).contains(&x));
    }
    for p in 0..81usize {
        for q in 0..81usize {
            if p == q {
                continue;
            }
            let same_row = p / 9 == q / 9;
            let same_col = p % 9 == q % 9;
            let same_box = (p / 9) / 3 == (q / 9) / 3 && (p % 9) / 3 == (q % 9) / 3;
            if same_row || same_col || same_box {
                assert_ne!(g[p], g[q], "duplicate between cells {} and {}", p, q);
            }
        }
    }
}

#[test]
fn empty_grid_finds_first_solution() {
    let mut g = vec![0u8; 81];
    assert!(solve(&mut g));
    assert_valid_solution(&g);
    assert_eq!(&g[0..9], &[1, 2, 3, 4, 5, 6, 7, 8, 9]);
    assert_eq!(g, first_full_grid());
}

#[test]
fn classic_puzzle_unique_solution() {
    let mut g = board([
        "530070000",
        "600195000",
        "098000060",
        "800060003",
        "400803001",
        "700020006",
        "060000280",
        "000419005",
        "000080079",
    ]);
    let givens = g.clone();
    assert!(solve(&mut g));
    assert_valid_solution(&g);
    for i in 0..81 {
        if givens[i] != 0 {
            assert_eq!(g[i], givens[i]);
        }
    }
    let expected = board([
        "534678912",
        "672195348",
        "198342567",
        "859761423",
        "426853791",
        "713924856",
        "961537284",
        "287419635",
        "345286179",
    ]);
    assert_eq!(g, expected);
}

#[test]
fn forced_blanks_restore_full_grid() {
    let full = first_full_grid();
    let mut g = full.clone();
    // one blank per row, each in its own column: every blank is forced
    // by the eight digits left in its row, so the solution is unique
    let blank_cols = [0usize, 3, 6, 1, 4, 7, 2, 5, 8];
    for (r, &c) in blank_cols.iter().enumerate() {
        g[9 * r + c] = 0;
    }
    assert!(solve(&mut g));
    assert_eq!(g, full);
}

#[test]
fn unsolvable_duplicate_in_row() {
    // the classic puzzle with a second 5 placed in its first row
    let mut g = board([
        "530070005",
        "600195000",
        "098000060",
        "800060003",
        "400803001",
        "700020006",
        "060000280",
        "000419005",
        "000080079",
    ]);
    let before = g.clone();
    assert!(!solve(&mut g));
    assert_eq!(g, before);
}

#[test]
fn unsolvable_duplicate_in_box() {
    // the classic puzzle with a 6 at row 0, column 2, duplicating the 6
    // at row 1, column 0 inside the top-left box
    let mut g = board([
        "536070000",
        "600195000",
        "098000060",
        "800060003",
        "400803001",
        "700020006",
        "060000280",
        "000419005",
        "000080079",
    ]);
    let before = g.clone();
    assert!(!solve(&mut g));
    assert_eq!(g, before);
}

#[test]
fn one_empty_cell_is_forced() {
    let full = first_full_grid();
    let mut g = full.clone();
    g[9 * 4 + 4] = 0;
    assert!(solve(&mut g));
    assert_eq!(g[9 * 4 + 4], 9);
    assert_eq!(g, full);
}

#[test]
fn repeated_calls_agree() {
    let puzzle = board([
        "530070000",
        "600195000",
        "098000060",
        "800060003",
        "400803001",
        "700020006",
        "060000280",
        "000419005",
        "000080079",
    ]);
    let mut a = puzzle.clone();
    let mut b = puzzle.clone();
    let ra = solve(&mut a);
    let rb = solve(&mut b);
    assert_eq!(ra, rb);
    assert_eq!(a, b);

    let mut bad = board([
        "530070005",
        "600195000",
        "098000060",
        "800060003",
        "400803001",
        "700020006",
        "060000280",
        "000419005",
        "000080079",
    ]);
    let mut bad2 = bad.clone();
    assert_eq!(solve(&mut bad), solve(&mut bad2));
    assert_eq!(bad, bad2);
}

#[test]
fn solved_grid_unchanged() {
    let full = first_full_grid();
    let mut g = full.clone();
    assert!(solve(&mut g));
    assert_eq!(g, full);
}

#[test]
fn digit_value_maps_ascii_digits() {
    assert_eq!(sudoku::grid::digit_value(b'0'), Some(0));
    assert_eq!(sudoku::grid::digit_value(b'7'), Some(7));
    assert_eq!(sudoku::grid::digit_value(b'9'), Some(9));
    assert_eq!(sudoku::grid::digit_value(b'a'), None);
    assert_eq!(sudoku::grid::digit_value(b' '), None);
}

#[test]
fn solve_cell_past_last_row() {
    // reaching row 9 means every earlier cell was placed: immediate success
    let mut g = vec![0u8; 81];
    let before = g.clone();
    assert!(solve_cell(&mut g, 9, 0));
    assert_eq!(g, before);
}

#[test]
fn solve_cell_fills_from_its_position() {
    let full = first_full_grid();
    let mut g = full.clone();
    g[80] = 0;
    assert!(solve_cell(&mut g, 8, 8));
    assert_eq!(g, full);
}
