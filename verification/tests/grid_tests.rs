use sudoku::grid::{block_origin, col_of, has_conflict, row_of, row_start};
use sudoku::sudoku::Sudoku;

#[test]
fn conflicts_are_detected_within_units() {
    let s = Sudoku::new_solved();
    for i in 0..81 {
        assert!(!has_conflict(&s.0, i), "a valid solution has no conflicts");
    }

    let mut grid = s.0;
    // Duplicate the first cell's digit next to it: both cells now clash.
    let kept = grid[1];
    grid[1] = grid[0];
    assert!(has_conflict(&grid, 0));
    assert!(has_conflict(&grid, 1));

    // An empty cell never conflicts.
    grid[1] = 0;
    assert!(!has_conflict(&grid, 1));
    assert!(!has_conflict(&grid, 0));
    grid[1] = kept;
    assert!(!has_conflict(&grid, 0));
}

#[test]
fn index_helpers_match_reference_formulas() {
    assert_eq!(row_of(0), 0);
    assert_eq!(col_of(0), 0);
    assert_eq!(row_start(0), 0);
    assert_eq!(block_origin(0), 0);

    assert_eq!(row_of(40), 4);
    assert_eq!(col_of(40), 4);
    assert_eq!(row_start(40), 36);
    assert_eq!(block_origin(40), 30);

    assert_eq!(row_of(80), 8);
    assert_eq!(col_of(80), 8);
    assert_eq!(row_start(80), 72);
    assert_eq!(block_origin(80), 60);

    // Block origin walks in steps of 3 columns and 27 rows.
    assert_eq!(block_origin(5), 3);
    assert_eq!(block_origin(8), 6);
    assert_eq!(block_origin(27), 27);
    assert_eq!(block_origin(53), 33);
}

#[test]
fn accessors_agree_with_the_grid() {
    let s = Sudoku::new_solved();
    let r0 = s.row(0);
    assert_eq!(&r0[..], &s.0[0..9]);
    let r8 = s.row(8);
    assert_eq!(&r8[..], &s.0[72..81]);

    let c3 = s.col(3);
    for r in 0..9 {
        assert_eq!(c3[r], s.0[r * 9 + 3]);
    }

    let b = s.block(1, 2);
    for kr in 0..3 {
        for kc in 0..3 {
            assert_eq!(b[kr * 3 + kc], s.0[(3 + kr) * 9 + 6 + kc]);
        }
    }
}

#[test]
fn setters_write_only_their_unit() {
    let mut s = Sudoku::new_solved();
    let before = s.0;

    let vals = [1i8, 2, 3, 4, 5, 6, 7, 8, 9];
    s.set_col(4, &vals);
    for r in 0..9 {
        assert_eq!(s.0[r * 9 + 4], vals[r]);
    }
    for i in 0..81 {
        if i % 9 != 4 {
            assert_eq!(s.0[i], before[i]);
        }
    }

    let mut s2 = Sudoku::new_solved();
    let before2 = s2.0;
    s2.set_block(2, 0, &vals);
    for kr in 0..3 {
        for kc in 0..3 {
            assert_eq!(s2.0[(6 + kr) * 9 + kc], vals[kr * 3 + kc]);
        }
    }
    for i in 0..81 {
        let in_block = i / 27 == 2 && (i % 9) / 3 == 0;
        if !in_block {
            assert_eq!(s2.0[i], before2[i]);
        }
    }
}

#[test]
fn can_place_respects_peers() {
    let mut s = Sudoku::new_solved();
    let v = s.0[0];
    s.0[0] = 0;
    // The removed digit is the only digit that fits back into its cell.
    assert!(s.can_place(0, v));
    for d in 1..=9i8 {
        if d != v {
            assert!(!s.can_place(0, d), "digit {d} should conflict at cell 0");
        }
    }
}

#[test]
fn count_solutions_limits() {
    let s = Sudoku::new_solved();
    // A complete grid has exactly one completion, whatever the cap.
    assert_eq!(s.count_solutions(0), 0);
    assert_eq!(s.count_solutions(1), 1);
    assert_eq!(s.count_solutions(5), 1);
    assert!(s.has_unique_solution());

    // Clearing a single cell keeps the completion unique.
    let mut t = s;
    t.0[17] = 0;
    assert_eq!(t.count_solutions(2), 1);

    // The empty grid has far more than two completions.
    let empty = Sudoku([0; 81], [0; 81]);
    assert_eq!(empty.count_solutions(2), 2);
}

#[test]
fn is_valid_rejects_broken_grids() {
    let empty = Sudoku([0; 81], [0; 81]);
    assert!(!empty.is_valid());

    let mut s = Sudoku::new_solved();
    assert!(s.is_valid());
    let keep = s.0[1];
    s.0[1] = s.0[0];
    assert!(!s.is_valid(), "duplicated digit in a row must be rejected");
    s.0[1] = keep;
    assert!(s.is_valid());

    let mut t = Sudoku::new_solved();
    t.0[80] = 0;
    assert!(!t.is_valid(), "a grid with an empty cell is not a solution");
}
