//! Positions in matrices that are stored row after row.
use vstd::arithmetic::div_mod::{lemma_div_multiples_vanish_fancy, lemma_fundamental_div_mod, lemma_mod_multiples_vanish};
use vstd::arithmetic::mul::{lemma_mul_inequality, lemma_mul_is_distributive_add_other_way};
use vstd::prelude::*;

verus! {

/// Row `i` and column `j` of a matrix with `h` rows and `w` columns stand at position
/// `i·w + j`, which lies inside the matrix and determines `i` and `j`.
pub proof fn lemma_position(i: int, j: int, h: int, w: int)
    requires
        0 <= i < h,
        0 <= j < w,
    ensures
        0 <= i * w <= i * w + j < h * w,
        (i * w + j) / w == i,
        (i * w + j) % w == j,
{
    lemma_mul_inequality(i + 1, h, w);
    lemma_mul_is_distributive_add_other_way(w, i, 1);
    lemma_mul_inequality(0, i, w);
    lemma_div_multiples_vanish_fancy(i, j, w);
    lemma_mod_multiples_vanish(i, j, w);
    vstd::arithmetic::div_mod::lemma_small_mod(j as nat, w as nat);
    vstd::arithmetic::mul::lemma_mul_is_commutative(i, w);
}

/// Every position inside a matrix is that of one row and one column.
pub proof fn lemma_row_and_column(p: int, h: int, w: int)
    requires
        0 <= p < h * w,
        0 <= h,
        0 <= w,
    ensures
        0 < w,
        0 <= p / w < h,
        0 <= p % w < w,
        p == (p / w) * w + p % w,
{
    if w == 0 {
        assert(h * w == 0) by (nonlinear_arith)
            requires
                w == 0,
        ;
    }
    lemma_fundamental_div_mod(p, w);
    vstd::arithmetic::div_mod::lemma_mod_bound(p, w);
    vstd::arithmetic::mul::lemma_mul_is_commutative(p / w, w);
    assert(0 <= p / w < h) by (nonlinear_arith)
        requires
            0 <= p < h * w,
            0 < w,
            p == (p / w) * w + p % w,
            0 <= p % w < w,
    ;
}

} // verus!
