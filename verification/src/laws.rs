//! Laws of the generator, stated and proved over the grid model.

use crate::grid::{
    at_block, at_rc, clues_match, col_of_idx, complete, filled_with, in_same_unit,
    lemma_block_cell_coords, lemma_row_col_coords, row_of_idx, valid_solution,
};
use vstd::prelude::*;

verus! {

/// Law: filling every empty cell of a puzzle whose clues agree with a
/// valid solution gives back exactly that solution, so the filled grid
/// is itself a valid solution.
pub proof fn lemma_round_trip(p: Seq<i8>, s: Seq<i8>)
    requires
        p.len() == 81,
        valid_solution(s),
        clues_match(p, s),
    ensures
        filled_with(p, s) == s,
        valid_solution(filled_with(p, s)),
{
    assert(filled_with(p, s) =~= s);
}

/// The set of values among the first `m` entries of `v`.
spec fn prefix_vals(v: Seq<int>, m: int) -> Set<int> {
    Set::new(|d: int| exists|j: int| 0 <= j < m && v[j] == d)
}

proof fn lemma_prefix_vals_card(v: Seq<int>, m: int)
    requires
        0 <= m <= v.len(),
        forall|i: int, j: int|
            0 <= i < v.len() && 0 <= j < v.len() && i != j ==> v[i] != v[j],
    ensures
        prefix_vals(v, m).finite(),
        prefix_vals(v, m).len() == m,
    decreases m,
{
    if m == 0 {
        assert(prefix_vals(v, 0) =~= Set::empty());
    } else {
        lemma_prefix_vals_card(v, m - 1);
        let d = v[m - 1];
        assert(!prefix_vals(v, m - 1).contains(d));
        assert(prefix_vals(v, m) =~= prefix_vals(v, m - 1).insert(d));
    }
}

/// Nine pairwise distinct values drawn from a range of nine integers
/// cover that whole range.
proof fn lemma_nine_distinct_cover(v: Seq<int>, lo: int)
    requires
        v.len() == 9,
        forall|i: int, j: int| 0 <= i < 9 && 0 <= j < 9 && i != j ==> v[i] != v[j],
        forall|k: int| 0 <= k < 9 ==> lo <= #[trigger] v[k] < lo + 9,
    ensures
        forall|d: int| lo <= d < lo + 9 ==> #[trigger] prefix_vals(v, 9).contains(d),
{
    lemma_prefix_vals_card(v, 9);
    let vals = prefix_vals(v, 9);
    let range = vstd::set_lib::set_int_range(lo, lo + 9);
    vstd::set_lib::lemma_int_range(lo, lo + 9);
    assert forall|d: int| lo <= d < lo + 9 implies #[trigger] vals.contains(d) by {
        if !vals.contains(d) {
            let smaller = range.remove(d);
            assert(vals.subset_of(smaller));
            vstd::set_lib::lemma_len_subset(vals, smaller);
        }
    }
}

pub open spec fn row_contains(g: Seq<i8>, r: int, d: i8) -> bool {
    exists|c: int| 0 <= c < 9 && #[trigger] at_rc(g, r, c) == d
}

pub open spec fn col_contains(g: Seq<i8>, c: int, d: i8) -> bool {
    exists|r: int| 0 <= r < 9 && #[trigger] at_rc(g, r, c) == d
}

pub open spec fn block_contains(g: Seq<i8>, br: int, bc: int, d: i8) -> bool {
    exists|kr: int, kc: int|
        0 <= kr < 3 && 0 <= kc < 3 && #[trigger] at_block(g, br, bc, kr, kc) == d
}

/// Law: in a valid solution, every row, every column, and every block
/// contains each digit 1 through 9 — each unit is a permutation of
/// {1, …, 9}.
pub proof fn lemma_valid_units_complete(g: Seq<i8>)
    requires
        valid_solution(g),
    ensures
        forall|r: int, d: i8| 0 <= r < 9 && 1 <= d <= 9 ==> #[trigger] row_contains(g, r, d),
        forall|c: int, d: i8| 0 <= c < 9 && 1 <= d <= 9 ==> #[trigger] col_contains(g, c, d),
        forall|br: int, bc: int, d: i8|
            0 <= br < 3 && 0 <= bc < 3 && 1 <= d <= 9 ==> #[trigger] block_contains(g, br, bc, d),
    {
    assert forall|r: int, d: i8|
        0 <= r < 9 && 1 <= d <= 9 implies #[trigger] row_contains(g, r, d) by {
        let v = Seq::new(9, |k: int| at_rc(g, r, k) as int);
        assert forall|k1: int, k2: int|
            0 <= k1 < 9 && 0 <= k2 < 9 && k1 != k2 implies v[k1] != v[k2] by {
            lemma_row_col_coords(r, k1);
            lemma_row_col_coords(r, k2);
            assert(in_same_unit(9 * r + k1, 9 * r + k2));
            assert(g[9 * r + k1] != 0);
            assert(g[9 * r + k1] != g[9 * r + k2]);
        }
        lemma_nine_distinct_cover(v, 1);
        assert(prefix_vals(v, 9).contains(d as int));
        let k = choose|j: int| 0 <= j < 9 && v[j] == d as int;
        assert(at_rc(g, r, k) == d);
    }
    assert forall|c: int, d: i8|
        0 <= c < 9 && 1 <= d <= 9 implies #[trigger] col_contains(g, c, d) by {
        let v = Seq::new(9, |k: int| at_rc(g, k, c) as int);
        assert forall|k1: int, k2: int|
            0 <= k1 < 9 && 0 <= k2 < 9 && k1 != k2 implies v[k1] != v[k2] by {
            lemma_row_col_coords(k1, c);
            lemma_row_col_coords(k2, c);
            assert(in_same_unit(9 * k1 + c, 9 * k2 + c));
            assert(g[9 * k1 + c] != 0);
            assert(g[9 * k1 + c] != g[9 * k2 + c]);
        }
        lemma_nine_distinct_cover(v, 1);
        assert(prefix_vals(v, 9).contains(d as int));
        let k = choose|j: int| 0 <= j < 9 && v[j] == d as int;
        assert(at_rc(g, k, c) == d);
    }
    assert forall|br: int, bc: int, d: i8|
        0 <= br < 3 && 0 <= bc < 3 && 1 <= d <= 9 implies #[trigger] block_contains(
        g,
        br,
        bc,
        d,
    ) by {
        let v = Seq::new(9, |k: int| at_block(g, br, bc, k / 3, k % 3) as int);
        assert forall|k1: int, k2: int|
            0 <= k1 < 9 && 0 <= k2 < 9 && k1 != k2 implies v[k1] != v[k2] by {
            vstd::arithmetic::div_mod::lemma_fundamental_div_mod(k1, 3);
            vstd::arithmetic::div_mod::lemma_fundamental_div_mod(k2, 3);
            lemma_block_cell_coords(br, bc, k1 / 3, k1 % 3);
            lemma_block_cell_coords(br, bc, k2 / 3, k2 % 3);
            let i1 = (3 * br + k1 / 3) * 9 + 3 * bc + k1 % 3;
            let i2 = (3 * br + k2 / 3) * 9 + 3 * bc + k2 % 3;
            assert(in_same_unit(i1, i2));
            assert(g[i1] != 0);
            assert(g[i1] != g[i2]);
        }
        lemma_nine_distinct_cover(v, 1);
        assert(prefix_vals(v, 9).contains(d as int));
        let k = choose|j: int| 0 <= j < 9 && v[j] == d as int;
        vstd::arithmetic::div_mod::lemma_fundamental_div_mod(k, 3);
        assert(at_block(g, br, bc, k / 3, k % 3) == d);
    }
}

/// Some row is assigned column `c` by the column choice `p`.
pub open spec fn some_row_gets_col(p: Seq<int>, c: int) -> bool {
    exists|r: int| 0 <= r < 9 && #[trigger] p[r] == c
}

/// The grid left by the easiest baseline removal: in each row `r`,
/// exactly the cell in column `p[r]` is cleared.
pub open spec fn cleared_one_per_row(g: Seq<i8>, p: Seq<int>) -> Seq<i8> {
    Seq::new(81, |i: int| if p[row_of_idx(i)] == col_of_idx(i) { 0i8 } else { g[i] })
}

/// Law: starting from a full grid and clearing, in every row, exactly
/// the cell whose column is drawn from a permutation of 0..9, leaves a
/// grid with exactly one empty cell in every row and exactly one empty
/// cell in every column.
pub proof fn lemma_permutation_baseline_shape(g: Seq<i8>, p: Seq<int>)
    requires
        complete(g),
        p.len() == 9,
        forall|r: int| 0 <= r < 9 ==> 0 <= #[trigger] p[r] < 9,
        forall|r1: int, r2: int| 0 <= r1 < 9 && 0 <= r2 < 9 && r1 != r2 ==> p[r1] != p[r2],
    ensures
        forall|r: int, c: int|
            0 <= r < 9 && 0 <= c < 9 ==> (#[trigger] at_rc(cleared_one_per_row(g, p), r, c) == 0
                <==> p[r] == c),
        forall|c: int| 0 <= c < 9 ==> #[trigger] some_row_gets_col(p, c),
{
    assert forall|r: int, c: int|
        0 <= r < 9 && 0 <= c < 9 implies (#[trigger] at_rc(cleared_one_per_row(g, p), r, c) == 0
        <==> p[r] == c) by {
        lemma_row_col_coords(r, c);
        assert(g[9 * r + c] != 0);
    }
    lemma_nine_distinct_cover(p, 0);
    assert forall|c: int| 0 <= c < 9 implies #[trigger] some_row_gets_col(p, c) by {
        assert(prefix_vals(p, 9).contains(c));
        let r = choose|j: int| 0 <= j < 9 && p[j] == c;
        assert(p[r] == c);
    }
}

} // verus!

