//! The grid model: cell indexing, peer relations, and validity of a
//! 9x9 Sudoku grid held as an 81-cell row-major sequence of digits.

use vstd::prelude::*;

verus! {

/// Cells per row (and per column, and per block).
pub const SIDE: usize = 9;

/// Total number of cells in a grid.
pub const CELL_COUNT: usize = 81;

/// Side length of one of the nine square blocks.
pub const BLOCK_SIDE: usize = 3;

/// Row of a cell index.
pub open spec fn row_of_idx(i: int) -> int {
    i / 9
}

/// Column of a cell index.
pub open spec fn col_of_idx(i: int) -> int {
    i % 9
}

/// Row coordinate of the block a cell lies in.
pub open spec fn block_row_of_idx(i: int) -> int {
    row_of_idx(i) / 3
}

/// Column coordinate of the block a cell lies in.
pub open spec fn block_col_of_idx(i: int) -> int {
    col_of_idx(i) / 3
}

/// Index of the top-left cell of the block a cell lies in.
pub open spec fn block_origin_of_idx(i: int) -> int {
    block_row_of_idx(i) * 27 + block_col_of_idx(i) * 3
}

pub open spec fn same_row(i: int, j: int) -> bool {
    row_of_idx(i) == row_of_idx(j)
}

pub open spec fn same_col(i: int, j: int) -> bool {
    col_of_idx(i) == col_of_idx(j)
}

pub open spec fn same_block(i: int, j: int) -> bool {
    block_row_of_idx(i) == block_row_of_idx(j) && block_col_of_idx(i) == block_col_of_idx(j)
}

/// Two cells see each other when they share a row, a column, or a block.
/// A cell is in the same unit as itself.
pub open spec fn in_same_unit(i: int, j: int) -> bool {
    same_row(i, j) || same_col(i, j) || same_block(i, j)
}

/// Every cell holds a digit 0..=9 (0 means empty).
pub open spec fn cells_in_range(g: Seq<i8>) -> bool {
    g.len() == 81 && forall|i: int| 0 <= i < 81 ==> 0 <= #[trigger] g[i] <= 9
}

/// Every cell holds a digit 1..=9: no cell is empty.
pub open spec fn complete(g: Seq<i8>) -> bool {
    g.len() == 81 && forall|i: int| 0 <= i < 81 ==> 1 <= #[trigger] g[i] <= 9
}

/// No two distinct cells of a row, column, or block hold the same
/// non-zero digit.
pub open spec fn consistent(g: Seq<i8>) -> bool {
    forall|i: int, j: int|
        #![trigger g[i], g[j]]
        0 <= i < 81 && 0 <= j < 81 && i != j && in_same_unit(i, j) && g[i] != 0 ==> g[i] != g[j]
}

/// A full, valid assignment: no empty cells and no repeated digit within
/// any row, column, or block.
pub open spec fn valid_solution(g: Seq<i8>) -> bool {
    complete(g) && consistent(g)
}

/// Digit `v` may be placed at `idx`: no cell of `idx`'s row, column, or
/// block currently holds `v`.
pub open spec fn placeable(g: Seq<i8>, idx: int, v: i8) -> bool {
    forall|j: int| 0 <= j < 81 && in_same_unit(idx, j) ==> #[trigger] g[j] != v
}

/// Every non-zero cell of the puzzle `p` holds the digit of the solution
/// `s` at the same index.
pub open spec fn clues_match(p: Seq<i8>, s: Seq<i8>) -> bool {
    forall|i: int| 0 <= i < 81 && #[trigger] p[i] != 0 ==> p[i] == s[i]
}

/// The grid obtained by filling every empty cell of `p` with the digit
/// of `s` at the same index.
pub open spec fn filled_with(p: Seq<i8>, s: Seq<i8>) -> Seq<i8> {
    Seq::new(81, |i: int| if p[i] == 0 { s[i] } else { p[i] })
}

/// The cell in row `r`, column `c`.
pub open spec fn at_rc(g: Seq<i8>, r: int, c: int) -> i8 {
    g[9 * r + c]
}

/// The cell of block `(br, bc)` with in-block coordinates `(kr, kc)`.
pub open spec fn at_block(g: Seq<i8>, br: int, bc: int, kr: int, kc: int) -> i8 {
    g[(3 * br + kr) * 9 + 3 * bc + kc]
}

pub open spec fn row_has_empty(g: Seq<i8>, r: int) -> bool {
    exists|c: int| 0 <= c < 9 && #[trigger] at_rc(g, r, c) == 0
}

pub open spec fn col_has_empty(g: Seq<i8>, c: int) -> bool {
    exists|r: int| 0 <= r < 9 && #[trigger] at_rc(g, r, c) == 0
}

pub open spec fn block_has_empty(g: Seq<i8>, br: int, bc: int) -> bool {
    exists|kr: int, kc: int|
        0 <= kr < 3 && 0 <= kc < 3 && #[trigger] at_block(g, br, bc, kr, kc) == 0
}

/// Every row, column, and block of the grid has at least one empty cell.
pub open spec fn all_units_have_empty(g: Seq<i8>) -> bool {
    &&& forall|r: int| 0 <= r < 9 ==> #[trigger] row_has_empty(g, r)
    &&& forall|c: int| 0 <= c < 9 ==> #[trigger] col_has_empty(g, c)
    &&& forall|br: int, bc: int| 0 <= br < 3 && 0 <= bc < 3 ==> #[trigger] block_has_empty(g, br, bc)
}

/// Row of a cell index: `index / 9`.
pub fn row_of(index: usize) -> (r: usize)
    requires
        index < 81,
    ensures
        r == row_of_idx(index as int),
        r < 9,
{
    index / 9
}

/// Column of a cell index: `index % 9`.
pub fn col_of(index: usize) -> (c: usize)
    requires
        index < 81,
    ensures
        c == col_of_idx(index as int),
        c < 9,
{
    index % 9
}

/// Index of the first cell of the row that `index` lies in.
pub fn row_start(index: usize) -> (s: usize)
    requires
        index < 81,
    ensures
        s == 9 * row_of_idx(index as int),
        s <= 72,
{
    row_of(index) * 9
}

/// Index of the top-left cell of the block that `index` lies in.
pub fn block_origin(index: usize) -> (o: usize)
    requires
        index < 81,
    ensures
        o == block_origin_of_idx(index as int),
        o <= 60,
{
    let block_row = row_of(index) / 3;
    let block_col = col_of(index) / 3;
    block_row * 27 + block_col * 3
}

/// A cell index written as `9 * r + c` with `c < 9` lies in row `r` and
/// column `c`.
pub proof fn lemma_row_col_coords(r: int, c: int)
    requires
        0 <= r < 9,
        0 <= c < 9,
    ensures
        0 <= 9 * r + c < 81,
        row_of_idx(9 * r + c) == r,
        col_of_idx(9 * r + c) == c,
{
    vstd::arithmetic::div_mod::lemma_fundamental_div_mod_converse(9 * r + c, 9, r, c);
}

/// A cell index written from block coordinates `(br, bc)` and in-block
/// coordinates `(kr, kc)` lies in row `3 * br + kr`, column `3 * bc + kc`,
/// and block `(br, bc)`.
pub proof fn lemma_block_cell_coords(br: int, bc: int, kr: int, kc: int)
    requires
        0 <= br < 3,
        0 <= bc < 3,
        0 <= kr < 3,
        0 <= kc < 3,
    ensures
        0 <= (3 * br + kr) * 9 + 3 * bc + kc < 81,
        row_of_idx((3 * br + kr) * 9 + 3 * bc + kc) == 3 * br + kr,
        col_of_idx((3 * br + kr) * 9 + 3 * bc + kc) == 3 * bc + kc,
        block_row_of_idx((3 * br + kr) * 9 + 3 * bc + kc) == br,
        block_col_of_idx((3 * br + kr) * 9 + 3 * bc + kc) == bc,
{
    let i = (3 * br + kr) * 9 + 3 * bc + kc;
    vstd::arithmetic::div_mod::lemma_fundamental_div_mod_converse(i, 9, 3 * br + kr, 3 * bc + kc);
    vstd::arithmetic::div_mod::lemma_fundamental_div_mod_converse(3 * br + kr, 3, br, kr);
    vstd::arithmetic::div_mod::lemma_fundamental_div_mod_converse(3 * bc + kc, 3, bc, kc);
}

/// Any cell index splits into its row and column: `i == 9 * row + col`,
/// and into block plus in-block coordinates.
pub proof fn lemma_idx_decompose(i: int)
    requires
        0 <= i < 81,
    ensures
        i == 9 * row_of_idx(i) + col_of_idx(i),
        0 <= row_of_idx(i) < 9,
        0 <= col_of_idx(i) < 9,
        0 <= block_row_of_idx(i) < 3,
        0 <= block_col_of_idx(i) < 3,
        row_of_idx(i) == 3 * block_row_of_idx(i) + row_of_idx(i) % 3,
        col_of_idx(i) == 3 * block_col_of_idx(i) + col_of_idx(i) % 3,
        0 <= row_of_idx(i) % 3 < 3,
        0 <= col_of_idx(i) % 3 < 3,
        i == (3 * block_row_of_idx(i) + row_of_idx(i) % 3) * 9 + 3 * block_col_of_idx(i)
            + col_of_idx(i) % 3,
{
    vstd::arithmetic::div_mod::lemma_fundamental_div_mod(i, 9);
    vstd::arithmetic::div_mod::lemma_fundamental_div_mod(row_of_idx(i), 3);
    vstd::arithmetic::div_mod::lemma_fundamental_div_mod(col_of_idx(i), 3);
}

/// Whether two cell indices share a row, a column, or a block.
pub fn shares_unit(i: usize, j: usize) -> (r: bool)
    requires
        i < 81,
        j < 81,
    ensures
        r == in_same_unit(i as int, j as int),
{
    row_of(i) == row_of(j) || col_of(i) == col_of(j) || (row_of(i) / 3 == row_of(j) / 3 && col_of(
        i,
    ) / 3 == col_of(j) / 3)
}

/// The number of completions contributed by placing digit `v` at the
/// empty cell `idx`: zero when `v` already occurs in the cell's row,
/// column, or block, and otherwise the number of ways to finish the
/// grid after the placement.
pub open spec fn digit_term(g: Seq<i8>, idx: int, v: int) -> nat
    decreases 81 - idx, 10 - v, 0int,
{
    if !(0 <= idx < 81) || !(1 <= v <= 9) {
        0
    } else if placeable(g, idx, v as i8) {
        completions_from(g.update(idx, v as i8), idx + 1)
    } else {
        0
    }
}

/// The number of ways to place digits `v..=9` at the empty cell `idx`
/// and finish the grid from there.
pub open spec fn completions_digits(g: Seq<i8>, idx: int, v: int) -> nat
    decreases 81 - idx, 10 - v, 1int,
{
    if !(0 <= idx < 81) || !(1 <= v <= 9) {
        0
    } else {
        digit_term(g, idx, v) + completions_digits(g, idx, v + 1)
    }
}

/// The number of ways to fill every empty cell at index `idx` or beyond
/// with a digit 1..=9 so that no placed digit repeats a digit of its
/// row, column, or block. Cells already filled are fixed and left
/// unexamined; empty cells before `idx` stay empty.
pub open spec fn completions_from(g: Seq<i8>, idx: int) -> nat
    decreases 81 - idx, 11int, 0int,
{
    if !(0 <= idx < 81) {
        1
    } else if g[idx] != 0 {
        completions_from(g, idx + 1)
    } else {
        completions_digits(g, idx, 1)
    }
}

/// The whole tail sum from digit 1 is at least any one digit's term.
pub proof fn lemma_digits_cover_term(g: Seq<i8>, idx: int, w: int, v: int)
    requires
        0 <= idx < 81,
        1 <= w <= v <= 9,
    ensures
        completions_digits(g, idx, w) >= digit_term(g, idx, v),
    decreases v - w,
{
    if w < v {
        lemma_digits_cover_term(g, idx, w + 1, v);
    }
}

/// If every digit from `w` up contributes nothing, the tail sum from
/// `w` is zero.
pub proof fn lemma_digits_all_zero(g: Seq<i8>, idx: int, w: int)
    requires
        0 <= idx < 81,
        1 <= w <= 10,
        forall|d: int| w <= d <= 9 ==> #[trigger] digit_term(g, idx, d) == 0,
    ensures
        completions_digits(g, idx, w) == 0,
    decreases 10 - w,
{
    if w <= 9 {
        lemma_digits_all_zero(g, idx, w + 1);
        assert(digit_term(g, idx, w) == 0);
        assert(completions_digits(g, idx, w) == digit_term(g, idx, w) + completions_digits(
            g,
            idx,
            w + 1,
        ));
    } else {
        assert(completions_digits(g, idx, w) == 0);
    }
}

/// A valid solution that agrees with the grid on its non-empty cells,
/// and cell for cell before `idx`, is counted: the grid has at least
/// one completion from `idx`.
pub proof fn lemma_completion_counted(g: Seq<i8>, h: Seq<i8>, idx: int)
    requires
        g.len() == 81,
        0 <= idx <= 81,
        valid_solution(h),
        forall|i: int| 0 <= i < 81 && #[trigger] g[i] != 0 ==> h[i] == g[i],
        forall|i: int| 0 <= i < idx ==> #[trigger] g[i] == h[i],
    ensures
        completions_from(g, idx) >= 1,
    decreases 81 - idx,
{
    if idx >= 81 {
    } else if g[idx] != 0 {
        lemma_completion_counted(g, h, idx + 1);
    } else {
        let v = h[idx];
        assert(1 <= v <= 9);
        assert(placeable(g, idx, v)) by {
            assert forall|j: int| 0 <= j < 81 && in_same_unit(idx, j) implies #[trigger] g[j]
                != v by {
                if g[j] != 0 {
                    assert(h[j] == g[j]);
                    assert(h[j] != h[idx]);
                }
            }
        }
        let g2 = g.update(idx, v);
        assert forall|i: int| 0 <= i < 81 && #[trigger] g2[i] != 0 implies h[i] == g2[i] by {
            if i != idx {
                assert(g2[i] == g[i]);
            }
        }
        lemma_completion_counted(g2, h, idx + 1);
        assert(digit_term(g, idx, v as int) >= 1);
        lemma_digits_cover_term(g, idx, 1, v as int);
    }
}

/// The number of empty cells among the first `n` cells.
pub open spec fn zeros_below(g: Seq<i8>, n: int) -> nat
    decreases n,
{
    if n <= 0 {
        0
    } else {
        zeros_below(g, n - 1) + (if g[n - 1] == 0 {
            1nat
        } else {
            0nat
        })
    }
}

/// The number of empty cells of the grid.
pub open spec fn zero_count(g: Seq<i8>) -> nat {
    zeros_below(g, 81)
}

/// A prefix without empty cells counts none.
pub proof fn lemma_zeros_below_none(g: Seq<i8>, n: int)
    requires
        forall|i: int| 0 <= i < n ==> g[i] != 0,
    ensures
        zeros_below(g, n) == 0,
    decreases n,
{
    if n > 0 {
        lemma_zeros_below_none(g, n - 1);
    }
}

/// Updating one cell shifts the zero count by exactly the change at
/// that cell.
pub proof fn lemma_zeros_below_update(g: Seq<i8>, j: int, x: i8, n: int)
    requires
        0 <= j < g.len(),
        n <= g.len(),
    ensures
        zeros_below(g.update(j, x), n) as int == zeros_below(g, n) as int + (if j < n {
            (if x == 0 {
                1int
            } else {
                0int
            }) - (if g[j] == 0 {
                1int
            } else {
                0int
            })
        } else {
            0int
        }),
    decreases n,
{
    if n > 0 {
        lemma_zeros_below_update(g, j, x, n - 1);
    }
}

/// The zero count grows with the prefix length.
pub proof fn lemma_zeros_below_monotone(g: Seq<i8>, m: int, n: int)
    requires
        m <= n,
    ensures
        zeros_below(g, m) <= zeros_below(g, n),
    decreases n - m,
{
    if m < n {
        lemma_zeros_below_monotone(g, m, n - 1);
    }
}

/// When each of the first `k` rows has an empty cell, the grid holds at
/// least `k` zeros within those rows.
pub proof fn lemma_rows_force_zeros(g: Seq<i8>, k: int)
    requires
        g.len() == 81,
        0 <= k <= 9,
        forall|r: int| 0 <= r < k ==> #[trigger] row_has_empty(g, r),
    ensures
        zeros_below(g, 9 * k) >= k,
    decreases k,
{
    if k > 0 {
        lemma_rows_force_zeros(g, k - 1);
        assert(row_has_empty(g, k - 1));
        let c = choose|c: int| 0 <= c < 9 && #[trigger] at_rc(g, k - 1, c) == 0;
        let j = 9 * (k - 1) + c;
        assert(g[j] == 0);
        lemma_zeros_below_monotone(g, 9 * (k - 1), j);
        assert(zeros_below(g, j + 1) == zeros_below(g, j) + 1);
        lemma_zeros_below_monotone(g, j + 1, 9 * k);
    }
}

/// The non-empty cell at `i` clashes with another cell of its row,
/// column, or block holding the same digit.
pub open spec fn conflict_at(g: Seq<i8>, i: int) -> bool {
    g[i] != 0 && exists|j: int|
        0 <= j < 81 && j != i && in_same_unit(i, j) && #[trigger] g[j] == g[i]
}

/// Check if the value at `index` conflicts with an equal value elsewhere
/// in its row, column, or block. An empty cell never conflicts.
#[verifier::loop_isolation(false)]
pub fn has_conflict(cells: &[i8; 81], index: usize) -> (r: bool)
    requires
        index < 81,
    ensures
        r == conflict_at(cells@, index as int),
{
    let value = cells[index];
    if value == 0 {
        return false;
    }
    let mut j: usize = 0;
    while j < 81
        invariant
            j <= 81,
            forall|t: int|
                0 <= t < j && t != index && in_same_unit(index as int, t) ==> #[trigger] cells@[t]
                    != value,
        decreases 81 - j,
    {
        if j != index && shares_unit(index, j) && cells[j] == value {
            return true;
        }
        j += 1;
    }
    false
}

/// Placing a digit that no cell of the target's row, column, or block
/// holds keeps the grid consistent.
pub proof fn lemma_place_preserves_consistent(g: Seq<i8>, idx: int, v: i8)
    requires
        g.len() == 81,
        consistent(g),
        0 <= idx < 81,
        placeable(g, idx, v),
    ensures
        consistent(g.update(idx, v)),
{
    let g2 = g.update(idx, v);
    assert forall|i: int, j: int|
        #![trigger g2[i], g2[j]]
        0 <= i < 81 && 0 <= j < 81 && i != j && in_same_unit(i, j) && g2[i] != 0 implies g2[i]
        != g2[j] by {
        if i == idx {
            assert(g[j] != v);
        } else if j == idx {
            assert(g[i] != v);
        } else {
            assert(g2[i] == g[i] && g2[j] == g[j]);
        }
    }
}

/// Clearing one cell keeps every digit in range, keeps every remaining
/// clue in agreement with the solution, and keeps every zero a zero.
pub proof fn lemma_clear_cell(g: Seq<i8>, sol: Seq<i8>, j: int)
    requires
        cells_in_range(g),
        clues_match(g, sol),
        0 <= j < 81,
    ensures
        cells_in_range(g.update(j, 0)),
        clues_match(g.update(j, 0), sol),
        forall|i: int| 0 <= i < 81 && #[trigger] g[i] == 0 ==> g.update(j, 0)[i] == 0,
{
}

/// Emptying cells never loses row coverage: if the zero cells of `g1`
/// stay zero in `g2`, every row among the first `m` that had an empty
/// cell still has one.
pub proof fn lemma_zero_monotone_rows(g1: Seq<i8>, g2: Seq<i8>, m: int)
    requires
        g1.len() == 81,
        g2.len() == 81,
        m <= 9,
        forall|i: int| 0 <= i < 81 && #[trigger] g1[i] == 0 ==> g2[i] == 0,
        forall|r: int| 0 <= r < m ==> #[trigger] row_has_empty(g1, r),
    ensures
        forall|r: int| 0 <= r < m ==> #[trigger] row_has_empty(g2, r),
{
    assert forall|r: int| 0 <= r < m implies #[trigger] row_has_empty(g2, r) by {
        assert(row_has_empty(g1, r));
        let c = choose|c: int| 0 <= c < 9 && #[trigger] at_rc(g1, r, c) == 0;
        assert(g1[9 * r + c] == 0);
        assert(at_rc(g2, r, c) == 0);
    }
}

/// Emptying cells never loses column coverage, for the first `m` columns.
pub proof fn lemma_zero_monotone_cols(g1: Seq<i8>, g2: Seq<i8>, m: int)
    requires
        g1.len() == 81,
        g2.len() == 81,
        m <= 9,
        forall|i: int| 0 <= i < 81 && #[trigger] g1[i] == 0 ==> g2[i] == 0,
        forall|c: int| 0 <= c < m ==> #[trigger] col_has_empty(g1, c),
    ensures
        forall|c: int| 0 <= c < m ==> #[trigger] col_has_empty(g2, c),
{
    assert forall|c: int| 0 <= c < m implies #[trigger] col_has_empty(g2, c) by {
        assert(col_has_empty(g1, c));
        let r = choose|r: int| 0 <= r < 9 && #[trigger] at_rc(g1, r, c) == 0;
        assert(g1[9 * r + c] == 0);
        assert(at_rc(g2, r, c) == 0);
    }
}

/// Emptying cells never loses block coverage, for the blocks before
/// `(mr, mc)` in row-major block order.
pub proof fn lemma_zero_monotone_blocks(g1: Seq<i8>, g2: Seq<i8>, mr: int, mc: int)
    requires
        g1.len() == 81,
        g2.len() == 81,
        mr <= 3,
        mc <= 3,
        forall|i: int| 0 <= i < 81 && #[trigger] g1[i] == 0 ==> g2[i] == 0,
        forall|br: int, bc: int|
            0 <= br < 3 && 0 <= bc < 3 && (br < mr || (br == mr && bc < mc))
                ==> #[trigger] block_has_empty(g1, br, bc),
    ensures
        forall|br: int, bc: int|
            0 <= br < 3 && 0 <= bc < 3 && (br < mr || (br == mr && bc < mc))
                ==> #[trigger] block_has_empty(g2, br, bc),
{
    assert forall|br: int, bc: int|
        0 <= br < 3 && 0 <= bc < 3 && (br < mr || (br == mr && bc < mc))
        implies #[trigger] block_has_empty(g2, br, bc) by {
        assert(block_has_empty(g1, br, bc));
        let (kr, kc) = choose|kr: int, kc: int|
            0 <= kr < 3 && 0 <= kc < 3 && #[trigger] at_block(g1, br, bc, kr, kc) == 0;
        assert(g1[(3 * br + kr) * 9 + 3 * bc + kc] == 0);
        assert(at_block(g2, br, bc, kr, kc) == 0);
    }
}

/// Emptying cells never loses coverage: a grid whose zero cells all stay
/// zero keeps every row, column, and block coverage the first grid had.
pub proof fn lemma_zero_monotone_coverage(g1: Seq<i8>, g2: Seq<i8>)
    requires
        g1.len() == 81,
        g2.len() == 81,
        forall|i: int| 0 <= i < 81 && #[trigger] g1[i] == 0 ==> g2[i] == 0,
        all_units_have_empty(g1),
    ensures
        all_units_have_empty(g2),
{
    assert forall|r: int| 0 <= r < 9 implies #[trigger] row_has_empty(g2, r) by {
        assert(row_has_empty(g1, r));
        let c = choose|c: int| 0 <= c < 9 && #[trigger] at_rc(g1, r, c) == 0;
        assert(g1[9 * r + c] == 0);
        assert(at_rc(g2, r, c) == 0);
    }
    assert forall|c: int| 0 <= c < 9 implies #[trigger] col_has_empty(g2, c) by {
        assert(col_has_empty(g1, c));
        let r = choose|r: int| 0 <= r < 9 && #[trigger] at_rc(g1, r, c) == 0;
        assert(g1[9 * r + c] == 0);
        assert(at_rc(g2, r, c) == 0);
    }
    assert forall|br: int, bc: int| 0 <= br < 3 && 0 <= bc < 3 implies #[trigger] block_has_empty(
        g2,
        br,
        bc,
    ) by {
        assert(block_has_empty(g1, br, bc));
        let (kr, kc) = choose|kr: int, kc: int|
            0 <= kr < 3 && 0 <= kc < 3 && #[trigger] at_block(g1, br, bc, kr, kc) == 0;
        assert(g1[(3 * br + kr) * 9 + 3 * bc + kc] == 0);
        assert(at_block(g2, br, bc, kr, kc) == 0);
    }
}

} // verus!
