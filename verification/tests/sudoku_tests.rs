use sudoku::sudoku::Sudoku;
use sudoku::sudoku::{MAX_DIFFICULTY_LEVEL, SUGGESTED_DIFFICULTY_LEVEL};

/// Text form of the puzzle grid, with block separators.
fn render(s: &Sudoku) -> String {
    let mut out = String::new();
    for r in 0..9 {
        if r != 0 && r % 3 == 0 {
            out += "------+-------+------\n";
        }
        for c in 0..9 {
            if c != 0 && c % 3 == 0 {
                out += "| ";
            }
            let v = s.0[r * 9 + c];
            if v == 0 {
                out += ". ";
            } else {
                out += &format!("{v} ");
            }
        }
        out += "\n";
    }
    out
}

fn zeros_of(grid: &[i8; 81]) -> usize {
    grid.iter().filter(|&&v| v == 0).count()
}

#[test]
fn generated_sudoku_is_valid() {
    let s = Sudoku::new_solved();
    assert!(
        s.is_valid(),
        "Generated Sudoku is not a valid solution:\n{s}",
        s = render(&s)
    );
}

#[test]
fn solver_produces_varied_grids() {
    let mut grids: Vec<[i8; 81]> = Vec::new();
    for _ in 0..20 {
        let s = Sudoku::new_solved();
        assert!(s.is_valid());
        grids.push(s.0);
    }
    let first = grids[0];
    assert!(
        grids.iter().any(|g| *g != first),
        "20 solver runs produced one single grid"
    );
}

#[test]
fn clues_agree_with_solution() {
    for level in [0u8, SUGGESTED_DIFFICULTY_LEVEL] {
        let s = Sudoku::new(level);
        for i in 0..81 {
            if s.0[i] != 0 {
                assert_eq!(s.0[i], s.1[i], "clue at {i} disagrees with solution");
            }
        }
    }
}

#[test]
fn puzzle_has_unique_solution() {
    for level in [0u8, SUGGESTED_DIFFICULTY_LEVEL] {
        let s = Sudoku::new(level);
        assert_eq!(s.count_solutions(2), 1);
        assert!(s.has_unique_solution());
    }
}

#[test]
fn count_solutions_does_not_mutate() {
    let s = Sudoku::new(2);
    let before_puzzle = s.0;
    let before_solution = s.1;
    let n = s.count_solutions(2);
    assert_eq!(n, 1);
    assert_eq!(s.0, before_puzzle);
    assert_eq!(s.1, before_solution);
}

#[test]
fn very_easy_has_empties_in_every_row_and_column() {
    let s = Sudoku::new(0);
    for r in 0..9 {
        assert!(
            (0..9).any(|c| s.0[r * 9 + c] == 0),
            "row {r} has no empty cell"
        );
    }
    for c in 0..9 {
        assert!(
            (0..9).any(|r| s.0[r * 9 + c] == 0),
            "column {c} has no empty cell"
        );
    }
    let z = zeros_of(&s.0);
    // One baseline removal per row, plus at most one repair per block.
    assert!((9..=18).contains(&z), "unexpected number of empties: {z}");
}

#[test]
fn higher_levels_remove_more_on_average() {
    let trials = 10;
    let mut low = 0usize;
    let mut high = 0usize;
    for _ in 0..trials {
        low += zeros_of(&Sudoku::new(1).0);
        high += zeros_of(&Sudoku::new(5).0);
    }
    assert!(
        high >= low,
        "level 5 left fewer empties ({high}) than level 1 ({low}) over {trials} trials"
    );
}

#[test]
fn filling_empties_from_solution_is_valid() {
    let s = Sudoku::new(SUGGESTED_DIFFICULTY_LEVEL);
    let full = s.filled();
    assert!(full.is_valid());
    assert_eq!(full.0, s.1);
}

#[test]
fn very_easy_end_to_end() {
    let s = Sudoku::new(0);
    assert_eq!(s.0.len(), 81);
    assert_eq!(s.1.len(), 81);
    assert!(zeros_of(&s.0) >= 9);
    for r in 0..9 {
        assert!((0..9).any(|c| s.0[r * 9 + c] == 0));
    }
    for c in 0..9 {
        assert!((0..9).any(|r| s.0[r * 9 + c] == 0));
    }
    assert_eq!(s.count_solutions(2), 1);
    let full = s.filled();
    assert!(full.is_valid());
    assert_eq!(full.0, s.1);
}

#[test]
fn empty_cell_counts_stay_within_level_bounds() {
    for level in [0u8, 3, 7] {
        let s = Sudoku::new(level);
        let z = zeros_of(&s.0);
        assert!(z >= 9, "level {level} left only {z} empties");
        assert!(
            z <= 25 + 7 * level as usize,
            "level {level} cleared too many cells: {z}"
        );
    }
}

#[test]
fn raising_the_cap_never_changes_a_smaller_count() {
    let s = Sudoku::new(2);
    let one = s.count_solutions(1);
    let two = s.count_solutions(2);
    let five = s.count_solutions(5);
    assert_eq!(one, 1);
    assert_eq!(two, 1);
    assert_eq!(five, 1, "a carved puzzle counts one completion at any cap");

    let empty = Sudoku([0; 81], [0; 81]);
    assert_eq!(empty.count_solutions(1), 1);
    assert_eq!(empty.count_solutions(3), 3);
}

#[test]
fn max_level_generates() {
    let s = Sudoku::new(MAX_DIFFICULTY_LEVEL);
    assert!(s.has_unique_solution());
    let full = s.filled();
    assert!(full.is_valid());
}
