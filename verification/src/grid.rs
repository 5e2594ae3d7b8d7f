//! Row-major cell numbering of an `n` by `n` board.

use vstd::prelude::*;
use vstd::arithmetic::div_mod::lemma_fundamental_div_mod_converse;
use vstd::arithmetic::div_mod::lemma_fundamental_div_mod;
use vstd::arithmetic::mul::lemma_mul_inequality;
use vstd::arithmetic::mul::lemma_mul_is_commutative;

verus! {

/// The number of cell `(i, j)`.
pub open spec fn cell_index(n: int, i: int, j: int) -> int {
    i * n + j
}

/// A cell of the board has a number below `n * n`, from which row and column
/// are recovered by division.
pub proof fn lemma_cell_index(n: int, i: int, j: int)
    requires
        0 <= i < n,
        0 <= j < n,
    ensures
        0 <= cell_index(n, i, j) < n * n,
        cell_index(n, i, j) / n == i,
        cell_index(n, i, j) % n == j,
{
    lemma_mul_is_commutative(i, n);
    lemma_fundamental_div_mod_converse(i * n + j, n, i, j);
    assert(i * n <= (n - 1) * n) by {
        lemma_mul_inequality(i, n - 1, n);
    }
    assert((n - 1) * n == n * n - n) by (nonlinear_arith);
    assert(0 <= i * n) by (nonlinear_arith)
        requires
            0 <= i,
            0 < n,
    ;
}

/// A number below `n * n` is the number of exactly one cell.
pub proof fn lemma_cell_split(n: int, k: int)
    requires
        0 < n,
        0 <= k < n * n,
    ensures
        0 <= k / n < n,
        0 <= k % n < n,
        cell_index(n, k / n, k % n) == k,
{
    lemma_fundamental_div_mod(k, n);
    lemma_mul_is_commutative(k / n, n);
    assert(0 <= k / n < n) by (nonlinear_arith)
        requires
            0 < n,
            0 <= k < n * n,
            k == n * (k / n) + k % n,
            0 <= k % n < n,
    ;
}

/// Two cells with the same number are the same cell.
pub proof fn lemma_cell_unique(n: int, i1: int, j1: int, i2: int, j2: int)
    requires
        0 <= i1 < n,
        0 <= j1 < n,
        0 <= i2 < n,
        0 <= j2 < n,
        cell_index(n, i1, j1) == cell_index(n, i2, j2),
    ensures
        i1 == i2,
        j1 == j2,
{
    lemma_cell_index(n, i1, j1);
    lemma_cell_index(n, i2, j2);
}

} // verus!
