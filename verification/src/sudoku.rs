//! The Sudoku type: a puzzle grid paired with its full solution, with
//! the randomized backtracking solver, the bounded solution counter, and
//! the difficulty-driven clue remover.

use crate::grid::{
    all_units_have_empty, at_block, at_rc, block_col_of_idx, block_has_empty, block_origin_of_idx,
    block_row_of_idx, cells_in_range, clues_match, col_has_empty, col_of_idx, complete, consistent,
    completions_digits, completions_from, digit_term, in_same_unit, placeable, row_has_empty,
    row_of_idx, same_col, same_row, valid_solution, zero_count,
};
use crate::grid::{lemma_block_cell_coords, lemma_idx_decompose, lemma_row_col_coords};
use crate::grid::{CELL_COUNT, SIDE};
use vstd::prelude::*;

verus! {

/// The highest difficulty level `new` accepts.
pub const MAX_DIFFICULTY_LEVEL: u8 = 7;

/// A reasonable default difficulty level.
pub const SUGGESTED_DIFFICULTY_LEVEL: u8 = 3;

/// One row of digits, left to right.
pub type Row = [i8; SIDE];

/// One column of digits, top to bottom.
pub type Col = [i8; SIDE];

/// One block of digits, row by row.
pub type Block = [i8; SIDE];

/// Tuple struct:
/// - `.0` = puzzle grid (0 = empty)
/// - `.1` = fully solved grid
#[derive(Clone, Copy, Debug)]
pub struct Sudoku(pub [i8; CELL_COUNT], pub [i8; CELL_COUNT]);

impl Sudoku {
    /// Check if `value` can be placed at `idx` without violating Sudoku
    /// rules: no cell of `idx`'s row, column, or block holds `value`.
    pub fn can_place(&self, idx: usize, value: i8) -> (r: bool)
        requires
            idx < 81,
        ensures
            r == placeable(self.0@, idx as int, value),
    {
        let r = idx / 9;
        let c = idx % 9;

        // Row
        let row_start = r * 9;
        let mut offset: usize = 0;
        while offset < 9
            invariant
                idx < 81,
                r == row_of_idx(idx as int),
                row_start == 9 * r,
                offset <= 9,
                forall|k: int| 0 <= k < offset ==> #[trigger] at_rc(self.0@, r as int, k) != value,
            decreases 9 - offset,
        {
            proof {
                lemma_row_col_coords(r as int, offset as int);
            }
            if self.0[row_start + offset] == value {
                assert(!placeable(self.0@, idx as int, value)) by {
                    let j = 9 * (r as int) + offset;
                    assert(in_same_unit(idx as int, j) && self.0@[j] == value);
                }
                return false;
            }
            offset += 1;
        }

        // Column
        let mut row: usize = 0;
        while row < 9
            invariant
                idx < 81,
                c == col_of_idx(idx as int),
                row <= 9,
                forall|k: int| 0 <= k < row ==> #[trigger] at_rc(self.0@, k, c as int) != value,
            decreases 9 - row,
        {
            proof {
                lemma_row_col_coords(row as int, c as int);
            }
            if self.0[row * 9 + c] == value {
                assert(!placeable(self.0@, idx as int, value)) by {
                    let j = 9 * (row as int) + c;
                    assert(in_same_unit(idx as int, j) && self.0@[j] == value);
                }
                return false;
            }
            row += 1;
        }

        // Block
        let br = r / 3;
        let bc = c / 3;
        let origin = br * 27 + bc * 3;
        let mut kr: usize = 0;
        while kr < 3
            invariant
                idx < 81,
                r == row_of_idx(idx as int),
                c == col_of_idx(idx as int),
                br == block_row_of_idx(idx as int),
                bc == block_col_of_idx(idx as int),
                origin == block_origin_of_idx(idx as int),
                kr <= 3,
                forall|a: int, b: int|
                    0 <= a < kr && 0 <= b < 3 ==> #[trigger] at_block(
                        self.0@,
                        br as int,
                        bc as int,
                        a,
                        b,
                    ) != value,
            decreases 3 - kr,
        {
            let mut kc: usize = 0;
            while kc < 3
                invariant
                    idx < 81,
                    br == block_row_of_idx(idx as int),
                    bc == block_col_of_idx(idx as int),
                    origin == block_origin_of_idx(idx as int),
                    kr < 3,
                    kc <= 3,
                    forall|a: int, b: int|
                        0 <= a < kr && 0 <= b < 3 ==> #[trigger] at_block(
                            self.0@,
                            br as int,
                            bc as int,
                            a,
                            b,
                        ) != value,
                    forall|b: int|
                        0 <= b < kc ==> #[trigger] at_block(
                            self.0@,
                            br as int,
                            bc as int,
                            kr as int,
                            b,
                        ) != value,
                decreases 3 - kc,
            {
                proof {
                    lemma_block_cell_coords(br as int, bc as int, kr as int, kc as int);
                }
                if self.0[origin + kc + kr * 9] == value {
                    assert(!placeable(self.0@, idx as int, value)) by {
                        let j = (3 * (br as int) + kr) * 9 + 3 * (bc as int) + kc;
                        assert(in_same_unit(idx as int, j) && self.0@[j] == value);
                    }
                    return false;
                }
                kc += 1;
            }
            kr += 1;
        }

        proof {
            assert forall|j: int|
                0 <= j < 81 && in_same_unit(idx as int, j) implies self.0@[j] != value by {
                lemma_idx_decompose(j);
                lemma_idx_decompose(idx as int);
                if same_row(idx as int, j) {
                    assert(at_rc(self.0@, r as int, col_of_idx(j)) != value);
                } else if same_col(idx as int, j) {
                    assert(at_rc(self.0@, row_of_idx(j), c as int) != value);
                } else {
                    assert(at_block(
                        self.0@,
                        br as int,
                        bc as int,
                        row_of_idx(j) % 3,
                        col_of_idx(j) % 3,
                    ) != value);
                }
            }
        }
        true
    }

    /// Fill the working grid from cell `idx` onward by randomized
    /// backtracking. On success the working grid is a full valid
    /// solution; failure means the grid has no completion at all, and
    /// leaves it exactly as it was before the call. Already-filled
    /// cells are never changed.
    #[verifier::loop_isolation(false)]
    fn solve_from(&mut self, idx: usize) -> (r: bool)
        requires
            idx <= 81,
            cells_in_range(old(self).0@),
            consistent(old(self).0@),
            forall|j: int| 0 <= j < idx ==> old(self).0@[j] != 0,
        ensures
            final(self).1 == old(self).1,
            cells_in_range(final(self).0@),
            consistent(final(self).0@),
            forall|j: int|
                0 <= j < 81 && old(self).0@[j] != 0 ==> final(self).0@[j] == old(self).0@[j],
            !r ==> final(self).0@ == old(self).0@,
            r ==> complete(final(self).0@),
            !r ==> completions_from(old(self).0@, idx as int) == 0,
        decreases 81 - idx,
    {
        if idx == 81 {
            return true;
        }
        if self.0[idx] != 0 {
            proof {
                assert(completions_from(self.0@, idx as int) == completions_from(
                    self.0@,
                    idx as int + 1,
                ));
            }
            return self.solve_from(idx + 1);
        }

        let ghost init = *self;
        let digits = crate::randomness::shuffled_digits();

        let mut k: usize = 0;
        while k < 9
            invariant
                idx < 81,
                k <= 9,
                digits@.len() == 9,
                forall|t: int| 0 <= t < 9 ==> 1 <= #[trigger] digits@[t] <= 9,
                forall|d: i8| 1 <= d <= 9 ==> #[trigger] digits@.contains(d),
                *self == init,
                cells_in_range(init.0@),
                consistent(init.0@),
                init.0@[idx as int] == 0,
                forall|j: int| 0 <= j < idx ==> init.0@[j] != 0,
                forall|t: int|
                    #![trigger digits@[t]]
                    0 <= t < k ==> digit_term(init.0@, idx as int, digits@[t] as int) == 0,
            decreases 9 - k,
        {
            let v = digits[k];
            if self.can_place(idx, v) {
                proof {
                    crate::grid::lemma_place_preserves_consistent(self.0@, idx as int, v);
                }
                self.0[idx] = v;
                assert(self.0@ == init.0@.update(idx as int, v));
                if self.solve_from(idx + 1) {
                    assert forall|j: int|
                        0 <= j < 81 && init.0@[j] != 0 implies self.0@[j] == init.0@[j] by {
                        assert(init.0@.update(idx as int, v)[j] == init.0@[j]);
                    }
                    return true;
                }
                proof {
                    assert(digit_term(init.0@, idx as int, v as int) == 0);
                }
                self.0[idx] = 0;
                proof {
                    assert(self.0 =~= init.0);
                    assert(self.0@ =~= init.0@);
                }
            } else {
                proof {
                    assert(digit_term(init.0@, idx as int, v as int) == 0);
                }
            }
            k += 1;
        }
        proof {
            assert forall|d: int| 1 <= d <= 9 implies #[trigger] digit_term(
                init.0@,
                idx as int,
                d,
            ) == 0 by {
                assert(digits@.contains(d as i8));
                let t = choose|t: int| 0 <= t < digits@.len() && digits@[t] == d as i8;
                assert(digit_term(init.0@, idx as int, digits@[t] as int) == 0);
            }
            crate::grid::lemma_digits_all_zero(init.0@, idx as int, 1);
            assert(completions_from(init.0@, idx as int) == completions_digits(
                init.0@,
                idx as int,
                1,
            ));
        }
        false
    }

    /// Count the completions of the working grid from cell `idx` onward,
    /// stopping early once `limit` is reached: the result is exactly the
    /// number of completions, capped at `limit`. The grid is left
    /// exactly as it was before the call.
    #[verifier::loop_isolation(false)]
    pub fn count_solutions_from(&mut self, idx: usize, limit: u32) -> (n: u32)
        requires
            idx <= 81,
            cells_in_range(old(self).0@),
        ensures
            final(self).0@ == old(self).0@,
            final(self).1 == old(self).1,
            n <= limit,
            n as int == vstd::math::min(
                limit as int,
                completions_from(old(self).0@, idx as int) as int,
            ),
        decreases 81 - idx,
    {
        if limit == 0 {
            return 0;
        }
        if idx == 81 {
            return 1;
        }
        if self.0[idx] != 0 {
            proof {
                assert(completions_from(self.0@, idx as int) == completions_from(
                    self.0@,
                    idx as int + 1,
                ));
            }
            return self.count_solutions_from(idx + 1, limit);
        }

        let ghost init = *self;
        let ghost total = completions_digits(init.0@, idx as int, 1);
        let mut count: u32 = 0;
        // For counting, randomness isn't required; 1..=9 is fine.
        let mut v: i8 = 1;
        while v <= 9
            invariant
                1 <= v <= 10,
                *self == init,
                count <= limit,
                count < limit ==> count as int == total - completions_digits(
                    init.0@,
                    idx as int,
                    v as int,
                ),
                count == limit ==> total >= limit,
            decreases 10 - v,
        {
            if self.can_place(idx, v) {
                self.0[idx] = v;
                let found = self.count_solutions_from(idx + 1, limit - count);
                proof {
                    assert(digit_term(init.0@, idx as int, v as int) == completions_from(
                        init.0@.update(idx as int, v),
                        idx as int + 1,
                    ));
                    assert(completions_digits(init.0@, idx as int, v as int) == digit_term(
                        init.0@,
                        idx as int,
                        v as int,
                    ) + completions_digits(init.0@, idx as int, v as int + 1));
                }
                count += found;
                self.0[idx] = 0;
                proof {
                    assert(self.0 =~= init.0);
                }
                if count >= limit {
                    break;
                }
            } else {
                proof {
                    assert(digit_term(init.0@, idx as int, v as int) == 0);
                    assert(completions_digits(init.0@, idx as int, v as int) == digit_term(
                        init.0@,
                        idx as int,
                        v as int,
                    ) + completions_digits(init.0@, idx as int, v as int + 1));
                }
            }
            v += 1;
        }
        proof {
            assert(completions_digits(init.0@, idx as int, 10) == 0);
            assert(completions_from(init.0@, idx as int) == total);
        }
        count
    }

    /// Count solutions of the current puzzle grid, capped at `limit`:
    /// the result is exactly the number of completions of the grid,
    /// capped at `limit`. The count runs on a private copy, so the grid
    /// is never modified.
    pub fn count_solutions(&self, limit: u32) -> (n: u32)
        requires
            cells_in_range(self.0@),
        ensures
            n <= limit,
            n as int == vstd::math::min(limit as int, completions_from(self.0@, 0) as int),
    {
        let mut copy = *self;
        copy.count_solutions_from(0, limit)
    }

    /// Does this puzzle have exactly one solution?
    pub fn has_unique_solution(&self) -> (r: bool)
        requires
            cells_in_range(self.0@),
        ensures
            r <==> completions_from(self.0@, 0) == 1,
    {
        self.count_solutions(2) == 1
    }

    /// Check that the working grid is a complete, valid solution:
    /// no zeros, and each row, column, and block free of repeats.
    #[verifier::loop_isolation(false)]
    pub fn is_valid(&self) -> (r: bool)
        ensures
            r == valid_solution(self.0@),
    {
        let mut i: usize = 0;
        while i < 81
            invariant
                i <= 81,
                forall|k: int| 0 <= k < i ==> 1 <= #[trigger] self.0@[k] <= 9,
            decreases 81 - i,
        {
            let v = self.0[i];
            if v < 1 || v > 9 {
                return false;
            }
            i += 1;
        }

        let mut a: usize = 0;
        while a < 81
            invariant
                a <= 81,
                forall|x: int, y: int|
                    #![trigger self.0@[x], self.0@[y]]
                    0 <= x < a && 0 <= y < 81 && x != y && in_same_unit(x, y) ==> self.0@[x]
                        != self.0@[y],
            decreases 81 - a,
        {
            let mut b: usize = 0;
            while b < 81
                invariant
                    a < 81,
                    b <= 81,
                    forall|y: int|
                        #![trigger self.0@[y]]
                        0 <= y < b && a != y && in_same_unit(a as int, y) ==> self.0@[a as int]
                            != self.0@[y],
                decreases 81 - b,
            {
                if a != b && crate::grid::shares_unit(a, b) && self.0[a] == self.0[b] {
                    assert(!consistent(self.0@)) by {
                        assert(self.0@[a as int] == self.0@[b as int] && self.0@[a as int] != 0);
                    }
                    return false;
                }
                b += 1;
            }
            a += 1;
        }
        true
    }

    /// The nine digits of row `n`, left to right.
    #[verifier::loop_isolation(false)]
    pub fn row(&self, n: usize) -> (r: Row)
        requires
            n < 9,
        ensures
            forall|k: int| 0 <= k < 9 ==> #[trigger] r@[k] == at_rc(self.0@, n as int, k),
    {
        let mut row = [0i8; 9];
        let start = n * 9;
        let mut k: usize = 0;
        while k < 9
            invariant
                k <= 9,
                forall|t: int| 0 <= t < k ==> #[trigger] row@[t] == at_rc(self.0@, n as int, t),
            decreases 9 - k,
        {
            proof {
                lemma_row_col_coords(n as int, k as int);
            }
            row[k] = self.0[start + k];
            k += 1;
        }
        row
    }

    /// The nine digits of column `n`, top to bottom.
    #[verifier::loop_isolation(false)]
    pub fn col(&self, n: usize) -> (c: Col)
        requires
            n < 9,
        ensures
            forall|k: int| 0 <= k < 9 ==> #[trigger] c@[k] == at_rc(self.0@, k, n as int),
    {
        let mut col = [0i8; 9];
        let mut k: usize = 0;
        while k < 9
            invariant
                k <= 9,
                forall|t: int| 0 <= t < k ==> #[trigger] col@[t] == at_rc(self.0@, t, n as int),
            decreases 9 - k,
        {
            proof {
                lemma_row_col_coords(k as int, n as int);
            }
            col[k] = self.0[k * 9 + n];
            k += 1;
        }
        col
    }

    /// Overwrite column `n` of the working grid with the given digits,
    /// top to bottom. No other cell changes.
    #[verifier::loop_isolation(false)]
    pub fn set_col(&mut self, n: usize, vals: &Col)
        requires
            n < 9,
        ensures
            forall|k: int| 0 <= k < 9 ==> #[trigger] at_rc(final(self).0@, k, n as int) == vals@[k],
            forall|i: int|
                0 <= i < 81 && col_of_idx(i) != n ==> final(self).0@[i] == old(self).0@[i],
            final(self).1 == old(self).1,
    {
        let mut k: usize = 0;
        while k < 9
            invariant
                k <= 9,
                self.1 == old(self).1,
                forall|t: int| 0 <= t < k ==> #[trigger] at_rc(self.0@, t, n as int) == vals@[t],
                forall|i: int| 0 <= i < 81 && col_of_idx(i) != n ==> self.0@[i] == old(self).0@[i],
            decreases 9 - k,
        {
            proof {
                lemma_row_col_coords(k as int, n as int);
            }
            let ghost pre = self.0@;
            self.0[k * 9 + n] = vals[k];
            proof {
                assert forall|t: int|
                    0 <= t < k + 1 implies #[trigger] at_rc(self.0@, t, n as int) == vals@[t] by {
                    lemma_row_col_coords(t, n as int);
                    if t < k {
                        assert(at_rc(pre, t, n as int) == vals@[t]);
                    }
                }
            }
            k += 1;
        }
    }

    /// The nine digits of block `(br, bc)`, row by row.
    #[verifier::loop_isolation(false)]
    pub fn block(&self, br: usize, bc: usize) -> (blk: Block)
        requires
            br < 3,
            bc < 3,
        ensures
            forall|kr: int, kc: int|
                0 <= kr < 3 && 0 <= kc < 3 ==> #[trigger] at_block(
                    self.0@,
                    br as int,
                    bc as int,
                    kr,
                    kc,
                ) == blk@[3 * kr + kc],
    {
        let mut blk = [0i8; 9];
        let r0 = br * 3;
        let c0 = bc * 3;
        let mut kr: usize = 0;
        let mut k: usize = 0;
        while kr < 3
            invariant
                kr <= 3,
                k == 3 * kr,
                forall|a: int, b: int|
                    0 <= a < kr && 0 <= b < 3 ==> #[trigger] at_block(
                        self.0@,
                        br as int,
                        bc as int,
                        a,
                        b,
                    ) == blk@[3 * a + b],
            decreases 3 - kr,
        {
            let mut kc: usize = 0;
            while kc < 3
                invariant
                    kr < 3,
                    kc <= 3,
                    k == 3 * kr + kc,
                    forall|a: int, b: int|
                        0 <= a < kr && 0 <= b < 3 ==> #[trigger] at_block(
                            self.0@,
                            br as int,
                            bc as int,
                            a,
                            b,
                        ) == blk@[3 * a + b],
                    forall|b: int|
                        0 <= b < kc ==> #[trigger] at_block(
                            self.0@,
                            br as int,
                            bc as int,
                            kr as int,
                            b,
                        ) == blk@[3 * (kr as int) + b],
                decreases 3 - kc,
            {
                proof {
                    lemma_block_cell_coords(br as int, bc as int, kr as int, kc as int);
                }
                blk[k] = self.0[(r0 + kr) * 9 + (c0 + kc)];
                k += 1;
                kc += 1;
            }
            kr += 1;
        }
        blk
    }

    /// Overwrite block `(br, bc)` of the working grid with the given
    /// digits, row by row. No other cell changes.
    #[verifier::loop_isolation(false)]
    pub fn set_block(&mut self, br: usize, bc: usize, vals: &Block)
        requires
            br < 3,
            bc < 3,
        ensures
            forall|kr: int, kc: int|
                0 <= kr < 3 && 0 <= kc < 3 ==> #[trigger] at_block(
                    final(self).0@,
                    br as int,
                    bc as int,
                    kr,
                    kc,
                ) == vals@[3 * kr + kc],
            forall|i: int|
                0 <= i < 81 && !(block_row_of_idx(i) == br && block_col_of_idx(i) == bc)
                    ==> final(self).0@[i] == old(self).0@[i],
            final(self).1 == old(self).1,
    {
        let r0 = br * 3;
        let c0 = bc * 3;
        let mut kr: usize = 0;
        let mut k: usize = 0;
        while kr < 3
            invariant
                kr <= 3,
                k == 3 * kr,
                self.1 == old(self).1,
                forall|a: int, b: int|
                    0 <= a < kr && 0 <= b < 3 ==> #[trigger] at_block(
                        self.0@,
                        br as int,
                        bc as int,
                        a,
                        b,
                    ) == vals@[3 * a + b],
                forall|i: int|
                    0 <= i < 81 && !(block_row_of_idx(i) == br && block_col_of_idx(i) == bc)
                        ==> self.0@[i] == old(self).0@[i],
            decreases 3 - kr,
        {
            let mut kc: usize = 0;
            while kc < 3
                invariant
                    kr < 3,
                    kc <= 3,
                    k == 3 * kr + kc,
                    self.1 == old(self).1,
                    forall|a: int, b: int|
                        0 <= a < kr && 0 <= b < 3 ==> #[trigger] at_block(
                            self.0@,
                            br as int,
                            bc as int,
                            a,
                            b,
                        ) == vals@[3 * a + b],
                    forall|b: int|
                        0 <= b < kc ==> #[trigger] at_block(
                            self.0@,
                            br as int,
                            bc as int,
                            kr as int,
                            b,
                        ) == vals@[3 * (kr as int) + b],
                    forall|i: int|
                        0 <= i < 81 && !(block_row_of_idx(i) == br && block_col_of_idx(i) == bc)
                            ==> self.0@[i] == old(self).0@[i],
                decreases 3 - kc,
            {
                proof {
                    lemma_block_cell_coords(br as int, bc as int, kr as int, kc as int);
                }
                let ghost pre = self.0@;
                self.0[(r0 + kr) * 9 + (c0 + kc)] = vals[k];
                proof {
                    assert forall|b: int|
                        0 <= b < kc + 1 implies #[trigger] at_block(
                            self.0@,
                            br as int,
                            bc as int,
                            kr as int,
                            b,
                        ) == vals@[3 * (kr as int) + b] by {
                        lemma_block_cell_coords(br as int, bc as int, kr as int, b);
                        if b < kc {
                            assert(at_block(pre, br as int, bc as int, kr as int, b)
                                == vals@[3 * (kr as int) + b]);
                        }
                    }
                    assert forall|a: int, b: int|
                        0 <= a < kr && 0 <= b < 3 implies #[trigger] at_block(
                            self.0@,
                            br as int,
                            bc as int,
                            a,
                            b,
                        ) == vals@[3 * a + b] by {
                        lemma_block_cell_coords(br as int, bc as int, a, b);
                        lemma_block_cell_coords(br as int, bc as int, kr as int, kc as int);
                        assert(at_block(pre, br as int, bc as int, a, b) == vals@[3 * a + b]);
                    }
                }
                k += 1;
                kc += 1;
            }
            kr += 1;
        }
    }

    /// Generate a fully solved working grid; the solution grid of the
    /// returned value is still all zeros.
    pub fn new_solved() -> (s: Sudoku)
        ensures
            valid_solution(s.0@),
            forall|i: int| 0 <= i < 81 ==> s.1@[i] == 0,
    {
        let mut s = Sudoku([0; 81], [0; 81]);
        let ghost empty = s.0@;
        let ok = s.solve_from(0);
        proof {
            // The search cannot fail: the empty grid has a completion,
            // so a failure would contradict the solver's completeness.
            if !ok {
                lemma_fallback_grid_valid();
                crate::grid::lemma_completion_counted(empty, fallback_grid(), 0);
            }
        }
        s
    }

    /// Generate a new Sudoku with the given difficulty level.
    ///
    /// The exact difficulty model is heuristic:
    /// - level 0: very easy, roughly one zero per row/column.
    /// - level > 0: progressively more zeros, while preserving uniqueness.
    ///
    /// Every clue of the returned puzzle agrees with the returned
    /// solution, the solution is a full valid grid completing the
    /// puzzle, and every row, column, and block of the puzzle has at
    /// least one empty cell. Uniqueness of the completion is re-checked
    /// only during the final removal phase; the earlier phases rely on
    /// construction alone. At level 0 the baseline leaves exactly one
    /// empty cell per row and per column, but the block repair may
    /// still clear a few more cells when some block kept all nine of
    /// its digits.
    #[verifier::loop_isolation(false)]
    pub fn new(level: u8) -> (s: Sudoku)
        requires
            level <= MAX_DIFFICULTY_LEVEL,
        ensures
            valid_solution(s.1@),
            cells_in_range(s.0@),
            clues_match(s.0@, s.1@),
            all_units_have_empty(s.0@),
            completions_from(s.0@, 0) >= 1,
            9 <= zero_count(s.0@),
            zero_count(s.0@) as int <= 25 + 7 * (level as int),
    {
        let mut s = Self::new_solved();
        // Save fully solved version.
        s.1 = s.0;
        assert(cells_in_range(s.0@));
        assert(clues_match(s.0@, s.1@));
        proof {
            crate::grid::lemma_zeros_below_none(s.0@, 81);
        }

        if level == 0 {
            // Ensure only one zero per row and column -- very easy start.
            let a = crate::randomness::shuffled_indices(9);
            let mut row: usize = 0;
            while row < 9
                invariant
                    row <= 9,
                    valid_solution(s.1@),
                    cells_in_range(s.0@),
                    clues_match(s.0@, s.1@),
                    forall|rr: int| 0 <= rr < row ==> #[trigger] row_has_empty(s.0@, rr),
                    zero_count(s.0@) == row,
                    forall|i: int|
                        0 <= i < 81 && row_of_idx(i) >= row ==> #[trigger] s.0@[i] != 0,
                decreases 9 - row,
            {
                let cidx = a[row];
                let ghost pre = s.0@;
                s.0[row * 9 + cidx] = 0;
                proof {
                    lemma_row_col_coords(row as int, cidx as int);
                    let j = (row as int) * 9 + cidx as int;
                    crate::grid::lemma_clear_cell(pre, s.1@, j);
                    crate::grid::lemma_zero_monotone_rows(pre, s.0@, row as int);
                    assert(at_rc(s.0@, row as int, cidx as int) == 0);
                    assert(pre[j] != 0);
                    crate::grid::lemma_zeros_below_update(pre, j, 0, 81);
                    assert forall|i: int|
                        0 <= i < 81 && row_of_idx(i) >= row + 1 implies #[trigger] s.0@[i]
                        != 0 by {
                        assert(s.0@[i] == pre[i]);
                    }
                }
                row += 1;
            }
        } else {
            // Allow multiple (or zero) zeros per column.
            let mut row: usize = 0;
            while row < 9
                invariant
                    row <= 9,
                    valid_solution(s.1@),
                    cells_in_range(s.0@),
                    clues_match(s.0@, s.1@),
                    forall|rr: int| 0 <= rr < row ==> #[trigger] row_has_empty(s.0@, rr),
                    zero_count(s.0@) == row,
                    forall|i: int|
                        0 <= i < 81 && row_of_idx(i) >= row ==> #[trigger] s.0@[i] != 0,
                decreases 9 - row,
            {
                let cidx = crate::randomness::random_below(9);
                let ghost pre = s.0@;
                s.0[row * 9 + cidx] = 0;
                proof {
                    lemma_row_col_coords(row as int, cidx as int);
                    let j = (row as int) * 9 + cidx as int;
                    crate::grid::lemma_clear_cell(pre, s.1@, j);
                    crate::grid::lemma_zero_monotone_rows(pre, s.0@, row as int);
                    assert(at_rc(s.0@, row as int, cidx as int) == 0);
                    assert(pre[j] != 0);
                    crate::grid::lemma_zeros_below_update(pre, j, 0, 81);
                    assert forall|i: int|
                        0 <= i < 81 && row_of_idx(i) >= row + 1 implies #[trigger] s.0@[i]
                        != 0 by {
                        assert(s.0@[i] == pre[i]);
                    }
                }
                row += 1;
            }
        }

        // Some column already holds a zero; the repairs below never
        // touch it, which bounds how many cells they can clear.
        proof {
            assert(row_has_empty(s.0@, 0));
        }
        let ghost cstar = choose|c: int| 0 <= c < 9 && #[trigger] at_rc(s.0@, 0, c) == 0;
        proof {
            lemma_row_col_coords(0, cstar);
            assert(col_has_empty(s.0@, cstar));
        }

        // Ensure every column has at least one zero.
        let mut colx: usize = 0;
        while colx < 9
            invariant
                colx <= 9,
                valid_solution(s.1@),
                cells_in_range(s.0@),
                clues_match(s.0@, s.1@),
                forall|rr: int| 0 <= rr < 9 ==> #[trigger] row_has_empty(s.0@, rr),
                forall|cc: int| 0 <= cc < colx ==> #[trigger] col_has_empty(s.0@, cc),
                0 <= cstar < 9,
                col_has_empty(s.0@, cstar),
                zero_count(s.0@) as int <= 9 + colx - (if colx > cstar {
                    1int
                } else {
                    0int
                }),
            decreases 9 - colx,
        {
            let mut cvals = s.col(colx);
            let ghost orig = cvals@;
            let ghost pre = s.0@;
            if !contains_zero(&cvals) {
                proof {
                    assert(colx as int != cstar) by {
                        if colx as int == cstar {
                            let r0 = choose|r: int|
                                0 <= r < 9 && #[trigger] at_rc(pre, r, cstar) == 0;
                            assert(orig[r0] == at_rc(pre, r0, colx as int));
                        }
                    }
                }
                let rr = crate::randomness::random_below(9);
                cvals[rr] = 0;
                s.set_col(colx, &cvals);
                proof {
                    assert forall|i: int| 0 <= i < 81 implies 0 <= #[trigger] s.0@[i] <= 9 && (
                    s.0@[i] != 0 ==> s.0@[i] == s.1@[i]) && (pre[i] == 0 ==> s.0@[i] == 0) by {
                        lemma_idx_decompose(i);
                        if col_of_idx(i) == colx as int {
                            assert(s.0@[i] == at_rc(s.0@, row_of_idx(i), colx as int));
                            assert(at_rc(s.0@, row_of_idx(i), colx as int) == cvals@[row_of_idx(
                                i,
                            )]);
                            assert(orig[row_of_idx(i)] != 0);
                            assert(orig[row_of_idx(i)] == at_rc(pre, row_of_idx(i), colx as int));
                            assert(pre[i] == at_rc(pre, row_of_idx(i), colx as int));
                        } else {
                            assert(s.0@[i] == pre[i]);
                        }
                    }
                    crate::grid::lemma_zero_monotone_rows(pre, s.0@, 9);
                    crate::grid::lemma_zero_monotone_cols(pre, s.0@, colx as int);
                    assert(at_rc(s.0@, rr as int, colx as int) == 0);
                    // The repair clears exactly one previously filled cell.
                    let jstar = 9 * (rr as int) + colx as int;
                    lemma_row_col_coords(rr as int, colx as int);
                    assert(s.0@ =~= pre.update(jstar, 0)) by {
                        assert forall|i: int|
                            0 <= i < 81 implies s.0@[i] == pre.update(jstar, 0)[i] by {
                            lemma_idx_decompose(i);
                            if col_of_idx(i) == colx as int {
                                assert(s.0@[i] == at_rc(s.0@, row_of_idx(i), colx as int));
                                assert(at_rc(s.0@, row_of_idx(i), colx as int) == cvals@[
                                    row_of_idx(i)]);
                                if row_of_idx(i) != rr as int {
                                    assert(cvals@[row_of_idx(i)] == orig[row_of_idx(i)]);
                                    assert(orig[row_of_idx(i)] == at_rc(
                                        pre,
                                        row_of_idx(i),
                                        colx as int,
                                    ));
                                    assert(pre[i] == at_rc(pre, row_of_idx(i), colx as int));
                                }
                            } else {
                                assert(s.0@[i] == pre[i]);
                            }
                        }
                    }
                    assert(orig[rr as int] == at_rc(pre, rr as int, colx as int));
                    assert(pre[jstar] != 0);
                    crate::grid::lemma_zeros_below_update(pre, jstar, 0, 81);
                    assert(col_has_empty(s.0@, cstar)) by {
                        let r0 = choose|r: int| 0 <= r < 9 && #[trigger] at_rc(pre, r, cstar) == 0;
                        lemma_row_col_coords(r0, cstar);
                        assert(pre[9 * r0 + cstar] == 0);
                        assert(s.0@[9 * r0 + cstar] == 0);
                        assert(at_rc(s.0@, r0, cstar) == 0);
                    }
                }
            } else {
                proof {
                    let k = choose|k: int| 0 <= k < 9 && cvals@[k] == 0;
                    assert(at_rc(s.0@, k, colx as int) == 0);
                }
            }
            colx += 1;
        }

        // Some block already holds a zero: the first empty cell of row 0
        // lies in a block the repairs below never touch.
        proof {
            assert(row_has_empty(s.0@, 0));
        }
        let ghost c1 = choose|c: int| 0 <= c < 9 && #[trigger] at_rc(s.0@, 0, c) == 0;
        let ghost bcstar = c1 / 3;
        proof {
            lemma_row_col_coords(0, c1);
            vstd::arithmetic::div_mod::lemma_fundamental_div_mod(c1, 3);
            assert(at_block(s.0@, 0, bcstar, 0, c1 % 3) == at_rc(s.0@, 0, c1));
            assert(block_has_empty(s.0@, 0, bcstar));
        }

        // Ensure every block has at least one zero.
        let mut br: usize = 0;
        while br < 3
            invariant
                br <= 3,
                valid_solution(s.1@),
                cells_in_range(s.0@),
                clues_match(s.0@, s.1@),
                forall|rr: int| 0 <= rr < 9 ==> #[trigger] row_has_empty(s.0@, rr),
                forall|cc: int| 0 <= cc < 9 ==> #[trigger] col_has_empty(s.0@, cc),
                forall|pr: int, pc: int|
                    0 <= pr < 3 && 0 <= pc < 3 && pr < br ==> #[trigger] block_has_empty(
                        s.0@,
                        pr,
                        pc,
                    ),
                0 <= bcstar < 3,
                block_has_empty(s.0@, 0, bcstar),
                zero_count(s.0@) as int <= 17 + 3 * br - (if 3 * br > bcstar {
                    1int
                } else {
                    0int
                }),
            decreases 3 - br,
        {
            let mut bc: usize = 0;
            while bc < 3
                invariant
                    br < 3,
                    bc <= 3,
                    valid_solution(s.1@),
                    cells_in_range(s.0@),
                    clues_match(s.0@, s.1@),
                    forall|rr: int| 0 <= rr < 9 ==> #[trigger] row_has_empty(s.0@, rr),
                    forall|cc: int| 0 <= cc < 9 ==> #[trigger] col_has_empty(s.0@, cc),
                    forall|pr: int, pc: int|
                        0 <= pr < 3 && 0 <= pc < 3 && (pr < br || (pr == br && pc < bc))
                            ==> #[trigger] block_has_empty(s.0@, pr, pc),
                    0 <= bcstar < 3,
                    block_has_empty(s.0@, 0, bcstar),
                    zero_count(s.0@) as int <= 17 + 3 * br + bc - (if 3 * br + bc > bcstar {
                        1int
                    } else {
                        0int
                    }),
                decreases 3 - bc,
            {
                let mut bvals = s.block(br, bc);
                let ghost orig = bvals@;
                let ghost pre = s.0@;
                if !contains_zero(&bvals) {
                    proof {
                        assert(!(br as int == 0 && bc as int == bcstar)) by {
                            if br as int == 0 && bc as int == bcstar {
                                let (kr0, kc0) = choose|kr: int, kc: int|
                                    0 <= kr < 3 && 0 <= kc < 3 && #[trigger] at_block(
                                        pre,
                                        0,
                                        bcstar,
                                        kr,
                                        kc,
                                    ) == 0;
                                assert(orig[3 * kr0 + kc0] == at_block(
                                    pre,
                                    br as int,
                                    bc as int,
                                    kr0,
                                    kc0,
                                ));
                            }
                        }
                    }
                    let idx = crate::randomness::random_below(9);
                    bvals[idx] = 0;
                    s.set_block(br, bc, &bvals);
                    proof {
                        vstd::arithmetic::div_mod::lemma_fundamental_div_mod(idx as int, 3);
                        assert forall|i: int| 0 <= i < 81 implies 0 <= #[trigger] s.0@[i] <= 9 && (
                        s.0@[i] != 0 ==> s.0@[i] == s.1@[i]) && (pre[i] == 0 ==> s.0@[i] == 0) by {
                            lemma_idx_decompose(i);
                            if block_row_of_idx(i) == br as int && block_col_of_idx(i)
                                == bc as int {
                                let kr = row_of_idx(i) % 3;
                                let kc = col_of_idx(i) % 3;
                                assert(s.0@[i] == at_block(s.0@, br as int, bc as int, kr, kc));
                                assert(at_block(s.0@, br as int, bc as int, kr, kc) == bvals@[3
                                    * kr + kc]);
                                assert(orig[3 * kr + kc] != 0);
                                assert(orig[3 * kr + kc] == at_block(
                                    pre,
                                    br as int,
                                    bc as int,
                                    kr,
                                    kc,
                                ));
                                assert(pre[i] == at_block(pre, br as int, bc as int, kr, kc));
                            } else {
                                assert(s.0@[i] == pre[i]);
                            }
                        }
                        crate::grid::lemma_zero_monotone_rows(pre, s.0@, 9);
                        crate::grid::lemma_zero_monotone_cols(pre, s.0@, 9);
                        crate::grid::lemma_zero_monotone_blocks(pre, s.0@, br as int, bc as int);
                        assert(at_block(
                            s.0@,
                            br as int,
                            bc as int,
                            (idx as int) / 3,
                            (idx as int) % 3,
                        ) == 0);
                        // The repair clears exactly one previously filled cell.
                        let kri = (idx as int) / 3;
                        let kci = (idx as int) % 3;
                        let jstar = (3 * (br as int) + kri) * 9 + 3 * (bc as int) + kci;
                        lemma_block_cell_coords(br as int, bc as int, kri, kci);
                        assert(s.0@ =~= pre.update(jstar, 0)) by {
                            assert forall|i: int|
                                0 <= i < 81 implies s.0@[i] == pre.update(jstar, 0)[i] by {
                                lemma_idx_decompose(i);
                                if block_row_of_idx(i) == br as int && block_col_of_idx(i)
                                    == bc as int {
                                    let kr = row_of_idx(i) % 3;
                                    let kc = col_of_idx(i) % 3;
                                    assert(s.0@[i] == at_block(
                                        s.0@,
                                        br as int,
                                        bc as int,
                                        kr,
                                        kc,
                                    ));
                                    assert(at_block(s.0@, br as int, bc as int, kr, kc)
                                        == bvals@[3 * kr + kc]);
                                    if !(kr == kri && kc == kci) {
                                        assert(bvals@[3 * kr + kc] == orig[3 * kr + kc]);
                                        assert(orig[3 * kr + kc] == at_block(
                                            pre,
                                            br as int,
                                            bc as int,
                                            kr,
                                            kc,
                                        ));
                                        assert(pre[i] == at_block(
                                            pre,
                                            br as int,
                                            bc as int,
                                            kr,
                                            kc,
                                        ));
                                        assert(i != jstar);
                                    }
                                } else {
                                    assert(s.0@[i] == pre[i]);
                                    assert(i != jstar);
                                }
                            }
                        }
                        assert(orig[3 * kri + kci] == at_block(pre, br as int, bc as int, kri, kci));
                        assert(pre[jstar] != 0);
                        crate::grid::lemma_zeros_below_update(pre, jstar, 0, 81);
                        assert(block_has_empty(s.0@, 0, bcstar)) by {
                            let (kr0, kc0) = choose|kr: int, kc: int|
                                0 <= kr < 3 && 0 <= kc < 3 && #[trigger] at_block(
                                    pre,
                                    0,
                                    bcstar,
                                    kr,
                                    kc,
                                ) == 0;
                            lemma_block_cell_coords(0, bcstar, kr0, kc0);
                            assert(pre[(3 * 0 + kr0) * 9 + 3 * bcstar + kc0] == 0);
                            assert(s.0@[(3 * 0 + kr0) * 9 + 3 * bcstar + kc0] == 0);
                            assert(at_block(s.0@, 0, bcstar, kr0, kc0) == 0);
                        }
                    }
                } else {
                    proof {
                        let k = choose|k: int| 0 <= k < 9 && bvals@[k] == 0;
                        vstd::arithmetic::div_mod::lemma_fundamental_div_mod(k, 3);
                        assert(at_block(s.0@, br as int, bc as int, k / 3, k % 3) == bvals@[3 * (k
                            / 3) + k % 3]);
                        assert(at_block(s.0@, br as int, bc as int, k / 3, k % 3) == 0);
                    }
                }
                bc += 1;
            }
            br += 1;
        }

        // Now we have an easy start; remove a few more clues to increase
        // difficulty, keeping only removals that preserve uniqueness.
        let mut more_zeros: u32 = (level as u32) * 7;

        let positions = crate::randomness::shuffled_indices(81);
        let mut t: usize = 0;
        while t < 81
            invariant
                t <= 81,
                valid_solution(s.1@),
                cells_in_range(s.0@),
                clues_match(s.0@, s.1@),
                all_units_have_empty(s.0@),
                more_zeros <= 7 * (level as u32),
                zero_count(s.0@) as int + more_zeros <= 25 + 7 * (level as int),
            decreases 81 - t,
        {
            if more_zeros == 0 {
                break;
            }
            let pos = positions[t];
            let val = s.0[pos];
            if val != 0 {
                let ghost pre = s.0@;
                s.0[pos] = 0;
                proof {
                    crate::grid::lemma_clear_cell(pre, s.1@, pos as int);
                    crate::grid::lemma_zero_monotone_coverage(pre, s.0@);
                    crate::grid::lemma_zeros_below_update(pre, pos as int, 0, 81);
                }
                if !s.has_unique_solution() {
                    // Revert if uniqueness is lost.
                    s.0[pos] = val;
                    proof {
                        assert(s.0@ =~= pre);
                    }
                } else {
                    more_zeros -= 1;
                }
            }
            t += 1;
        }
        proof {
            crate::grid::lemma_completion_counted(s.0@, s.1@, 0);
            crate::grid::lemma_rows_force_zeros(s.0@, 9);
        }
        s
    }
}

impl Sudoku {
    /// The same pair, with every empty cell of the puzzle grid filled
    /// from the solution grid.
    #[verifier::loop_isolation(false)]
    pub fn filled(&self) -> (t: Sudoku)
        ensures
            t.0@ == crate::grid::filled_with(self.0@, self.1@),
            t.1 == self.1,
    {
        let mut t = *self;
        let mut i: usize = 0;
        while i < 81
            invariant
                i <= 81,
                t.1 == self.1,
                forall|k: int|
                    0 <= k < i ==> #[trigger] t.0@[k] == crate::grid::filled_with(
                        self.0@,
                        self.1@,
                    )[k],
                forall|k: int| i <= k < 81 ==> #[trigger] t.0@[k] == self.0@[k],
            decreases 81 - i,
        {
            if t.0[i] == 0 {
                t.0[i] = self.1[i];
            }
            i += 1;
        }
        proof {
            assert(t.0@ =~= crate::grid::filled_with(self.0@, self.1@));
        }
        t
    }
}

/// Whether one of the nine digits is zero.
#[verifier::loop_isolation(false)]
fn contains_zero(a: &Row) -> (r: bool)
    ensures
        r == exists|k: int| 0 <= k < 9 && a@[k] == 0,
{
    let mut k: usize = 0;
    while k < 9
        invariant
            k <= 9,
            forall|t: int| 0 <= t < k ==> a@[t] != 0,
        decreases 9 - k,
    {
        if a[k] == 0 {
            return true;
        }
        k += 1;
    }
    false
}

/// The digit of a fixed valid grid: row `r` holds the digits 1..=9
/// cyclically shifted by `3 * r + r / 3` positions. It serves as the
/// witness that a completion of the empty grid exists.
pub open spec fn fallback_cell(i: int) -> i8 {
    (1 + (3 * row_of_idx(i) + row_of_idx(i) / 3 + col_of_idx(i)) % 9) as i8
}

/// Two distinct cells of one row, column, or block of the shifted-band
/// pattern hold distinct digits.
proof fn lemma_fallback_distinct(r1: u32, c1: u32, r2: u32, c2: u32)
    requires
        r1 < 9,
        c1 < 9,
        r2 < 9,
        c2 < 9,
        !(r1 == r2 && c1 == c2),
        r1 == r2 || c1 == c2 || (r1 / 3 == r2 / 3 && c1 / 3 == c2 / 3),
    ensures
        (3 * r1 + r1 / 3 + c1) % 9 != (3 * r2 + r2 / 3 + c2) % 9,
{
    vstd::arithmetic::div_mod::lemma_fundamental_div_mod(r1 as int, 3);
    vstd::arithmetic::div_mod::lemma_fundamental_div_mod(r2 as int, 3);
    vstd::arithmetic::div_mod::lemma_fundamental_div_mod(c1 as int, 3);
    vstd::arithmetic::div_mod::lemma_fundamental_div_mod(c2 as int, 3);
    let a1 = r1 / 3;
    let p1 = r1 % 3;
    let b1 = c1 / 3;
    let q1 = c1 % 3;
    let a2 = r2 / 3;
    let p2 = r2 % 3;
    let b2 = c2 / 3;
    let q2 = c2 % 3;
    assert(3 * r1 + r1 / 3 + c1 == 10 * a1 + 3 * p1 + 3 * b1 + q1);
    assert(3 * r2 + r2 / 3 + c2 == 10 * a2 + 3 * p2 + 3 * b2 + q2);
    if r1 == r2 {
        assert((10 * a1 + 3 * p1 + 3 * b1 + q1) % 9 != (10 * a2 + 3 * p2 + 3 * b2 + q2) % 9)
            by (bit_vector)
            requires
                a1 < 3 && p1 < 3 && b1 < 3 && q1 < 3 && a2 < 3 && p2 < 3 && b2 < 3 && q2 < 3,
                a1 == a2,
                p1 == p2,
                !(b1 == b2 && q1 == q2),
        ;
    } else if c1 == c2 {
        assert((10 * a1 + 3 * p1 + 3 * b1 + q1) % 9 != (10 * a2 + 3 * p2 + 3 * b2 + q2) % 9)
            by (bit_vector)
            requires
                a1 < 3 && p1 < 3 && b1 < 3 && q1 < 3 && a2 < 3 && p2 < 3 && b2 < 3 && q2 < 3,
                b1 == b2,
                q1 == q2,
                !(a1 == a2 && p1 == p2),
        ;
    } else {
        assert((10 * a1 + 3 * p1 + 3 * b1 + q1) % 9 != (10 * a2 + 3 * p2 + 3 * b2 + q2) % 9)
            by (bit_vector)
            requires
                a1 < 3 && p1 < 3 && b1 < 3 && q1 < 3 && a2 < 3 && p2 < 3 && b2 < 3 && q2 < 3,
                a1 == a2,
                b1 == b2,
                !(p1 == p2 && q1 == q2),
        ;
    }
}

/// The shifted-band grid as a whole.
pub open spec fn fallback_grid() -> Seq<i8> {
    Seq::new(81, |i: int| fallback_cell(i))
}

/// The shifted-band pattern is a valid solution: it witnesses that an
/// empty grid always has a completion.
proof fn lemma_fallback_grid_valid()
    ensures
        valid_solution(fallback_grid()),
{
    let g = fallback_grid();
    assert forall|a: int, b: int|
        #![trigger g[a], g[b]]
        0 <= a < 81 && 0 <= b < 81 && a != b && in_same_unit(a, b) && g[a] != 0 implies g[a]
        != g[b] by {
        lemma_idx_decompose(a);
        lemma_idx_decompose(b);
        let r1 = row_of_idx(a);
        let c1 = col_of_idx(a);
        let r2 = row_of_idx(b);
        let c2 = col_of_idx(b);
        vstd::arithmetic::div_mod::lemma_mod_bound(3 * r1 + r1 / 3 + c1, 9);
        vstd::arithmetic::div_mod::lemma_mod_bound(3 * r2 + r2 / 3 + c2, 9);
        lemma_fallback_distinct(r1 as u32, c1 as u32, r2 as u32, c2 as u32);
    }
    assert forall|k: int| 0 <= k < 81 implies 1 <= #[trigger] g[k] <= 9 by {
        lemma_idx_decompose(k);
        vstd::arithmetic::div_mod::lemma_mod_bound(
            3 * row_of_idx(k) + row_of_idx(k) / 3 + col_of_idx(k),
            9,
        );
    }
}

} // verus!
