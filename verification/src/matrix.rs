//! Layout of the packed upper-triangular weight matrix.
//!
//! The weight of the edge between the instance positions `i < j` of an
//! instance of `n` cities is stored at `tri_index(n, i, j)` in a vector of
//! `n * (n - 1) / 2` entries, row by row.

use vstd::prelude::*;

verus! {

/// Number of entries of the packed matrix for `n` cities.
pub open spec fn pair_count(n: int) -> int {
    n * (n - 1) / 2
}

/// First slot of row `i`: the number of pairs `(a, b)` with `a < i`.
pub open spec fn row_start(n: int, i: int) -> int {
    i * (2 * n - i - 1) / 2
}

/// Slot of the pair `(i, j)`, `i < j`.
pub open spec fn tri_spec(n: int, i: int, j: int) -> int {
    row_start(n, i) + (j - i - 1)
}

/// The arithmetic of `tri_index` stays within `usize`.
pub open spec fn tri_fits(n: int, i: int, j: int) -> bool {
    &&& 2 * n <= usize::MAX
    &&& i * (2 * n - i - 1) <= usize::MAX
}

/// Slot of the pair of positions `i < j` in the packed matrix of `n` cities.
pub fn tri_index(n: usize, i: usize, j: usize) -> (r: usize)
    requires
        i < j < n,
        tri_fits(n as int, i as int, j as int),
    ensures
        r == tri_spec(n as int, i as int, j as int),
{
    i * (2 * n - i - 1) / 2 + (j - i - 1)
}

proof fn lemma_row_product_even(n: int, i: int)
    requires
        0 <= i,
    ensures
        (i * (2 * n - i - 1)) % 2 == 0,
{
    let q = i / 2;
    vstd::arithmetic::div_mod::lemma_fundamental_div_mod(i, 2);
    let x = if i % 2 == 0 {
        q * (2 * n - i - 1)
    } else {
        i * (n - q - 1)
    };
    assert(i * (2 * n - i - 1) == 2 * x) by (nonlinear_arith)
        requires
            i == 2 * q + i % 2,
            i % 2 == 0 || i % 2 == 1,
            x == (if i % 2 == 0 { q * (2 * n - i - 1) } else { i * (n - q - 1) }),
    ;
    vstd::arithmetic::div_mod::lemma_mod_multiples_basic(x, 2);
    assert(2 * x == x * 2);
}

/// Consecutive rows are adjacent intervals: row `i` holds `n - 1 - i` slots.
pub proof fn lemma_row_start_step(n: int, i: int)
    requires
        0 <= i,
    ensures
        row_start(n, i + 1) == row_start(n, i) + (n - 1 - i),
{
    lemma_row_product_even(n, i);
    lemma_row_product_even(n, i + 1);
    assert((i + 1) * (2 * n - (i + 1) - 1) == i * (2 * n - i - 1) + 2 * (n - 1 - i))
        by (nonlinear_arith);
}

proof fn lemma_row_start_mono(n: int, i: int, k: int)
    requires
        0 <= i < k <= n,
    ensures
        row_start(n, i + 1) <= row_start(n, k),
    decreases k - i,
{
    if i + 1 < k {
        lemma_row_start_mono(n, i + 1, k);
        lemma_row_start_step(n, i + 1);
    }
}

proof fn lemma_tri_in_row(n: int, i: int, j: int)
    requires
        0 <= i < j < n,
    ensures
        row_start(n, i) <= tri_spec(n, i, j) < row_start(n, i + 1),
{
    lemma_row_start_step(n, i);
}

proof fn lemma_last_row_start(n: int)
    requires
        1 <= n,
    ensures
        row_start(n, n - 1) == pair_count(n),
        row_start(n, 0) == 0,
{
    assert((n - 1) * (2 * n - (n - 1) - 1) == n * (n - 1)) by (nonlinear_arith);
}

proof fn lemma_tri_onto_from_row(n: int, s: int, i: int)
    requires
        0 <= i <= n - 1,
        row_start(n, i) <= s < row_start(n, n - 1),
    ensures
        exists|a: int, b: int| 0 <= a < b < n && tri_spec(n, a, b) == s,
    decreases n - 1 - i,
{
    lemma_row_start_step(n, i);
    if s < row_start(n, i + 1) {
        let b = s - row_start(n, i) + i + 1;
        assert(tri_spec(n, i, b) == s);
    } else {
        if i + 1 == n - 1 {
            assert(false);
        }
        lemma_tri_onto_from_row(n, s, i + 1);
    }
}

/// The packed layout is one to one: every pair of positions `i < j < n`
/// gets its own slot, below `n * (n - 1) / 2`.
pub proof fn lemma_tri_index_injective(n: int)
    requires
        0 <= n,
    ensures
        forall|i: int, j: int|
            0 <= i < j < n ==> 0 <= #[trigger] tri_spec(n, i, j) < pair_count(n),
        forall|i: int, j: int, k: int, l: int|
            0 <= i < j < n && 0 <= k < l < n && #[trigger] tri_spec(n, i, j)
                == #[trigger] tri_spec(n, k, l) ==> i == k && j == l,
{
    assert forall|i: int, j: int| 0 <= i < j < n implies 0 <= #[trigger] tri_spec(n, i, j)
        < pair_count(n) by {
        lemma_tri_in_row(n, i, j);
        lemma_last_row_start(n);
        if i + 1 < n - 1 {
            lemma_row_start_mono(n, i + 1, n - 1);
            lemma_row_start_step(n, i + 1);
        }
        if i > 0 {
            lemma_row_start_mono(n, 0, i);
            lemma_row_start_step(n, 0);
        }
    }
    assert forall|i: int, j: int, k: int, l: int|
        0 <= i < j < n && 0 <= k < l < n && #[trigger] tri_spec(n, i, j) == #[trigger] tri_spec(
            n,
            k,
            l,
        ) implies i == k && j == l by {
        lemma_tri_in_row(n, i, j);
        lemma_tri_in_row(n, k, l);
        if i < k {
            lemma_row_start_mono(n, i, k);
        } else if k < i {
            lemma_row_start_mono(n, k, i);
        }
    }
}

/// The packed layout is onto: every slot below `n * (n - 1) / 2` is the
/// slot of some pair of positions `i < j < n`.
pub proof fn lemma_tri_index_onto(n: int, s: int)
    requires
        0 <= n,
        0 <= s < pair_count(n),
    ensures
        exists|i: int, j: int| 0 <= i < j < n && #[trigger] tri_spec(n, i, j) == s,
{
    if n >= 1 {
        lemma_last_row_start(n);
        lemma_tri_onto_from_row(n, s, 0);
    } else {
        assert(pair_count(0) == 0);
    }
}

} // verus!
