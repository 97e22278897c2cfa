//! Layout of Cartesian expansion coefficients: the terms `(i, j)` with
//! `i + j <= p` stored in one flat array, by total order then by `j`.
use vstd::prelude::*;

verus! {

/// `n (n + 1) / 2`: the number of terms of total order below `n`.
pub open spec fn triangle(n: int) -> int {
    n * (n + 1) / 2
}

/// Flat position of the term `(i, j)`.
pub open spec fn moment_index_spec(i: int, j: int) -> int {
    triangle(i + j) + j
}

/// Number of coefficients of an expansion of order `p`.
pub open spec fn num_moments_spec(p: int) -> int {
    (p + 1) * (p + 2) / 2
}

proof fn lemma_triangle_step(n: int)
    requires
        n >= 0,
    ensures
        triangle(n + 1) == triangle(n) + n + 1,
        triangle(n) >= 0,
{
    assert((n + 1) * (n + 2) == n * (n + 1) + 2 * (n + 1)) by (nonlinear_arith);
    assert(n * (n + 1) >= 0) by (nonlinear_arith)
        requires
            n >= 0,
    ;
}

proof fn lemma_triangle_mono(a: int, b: int)
    requires
        0 <= a <= b,
    ensures
        triangle(a) + (b - a) <= triangle(b),
    decreases b - a,
{
    if a < b {
        lemma_triangle_mono(a, b - 1);
        lemma_triangle_step(b - 1);
    }
}

/// Number of expansion coefficients for order `p`: `(p+1)(p+2)/2`.
pub fn num_moments(p: usize) -> (m: usize)
    requires
        (p + 1) * (p + 2) <= usize::MAX,
    ensures
        m == num_moments_spec(p as int),
{
    proof {
        assert(p + 2 <= (p + 1) * (p + 2)) by (nonlinear_arith)
            requires
                p >= 0,
        ;
    }
    (p + 1) * (p + 2) / 2
}

/// Flat index of the term `(i, j)`: `n(n+1)/2 + j` with `n = i + j`.
pub fn moment_index(i: usize, j: usize) -> (idx: usize)
    requires
        (i + j) * (i + j + 1) + 2 * j <= usize::MAX,
    ensures
        idx == moment_index_spec(i as int, j as int),
{
    proof {
        assert(i + j + 1 <= (i + j) * (i + j + 1) + 2 * j + 1) by (nonlinear_arith)
            requires
                i >= 0,
                j >= 0,
        ;
    }
    let n: usize = i + j;
    proof {
        assert(n * (n + 1) >= 0) by (nonlinear_arith)
            requires
                n >= 0,
        ;
        assert(n * (n + 1) / 2 <= n * (n + 1));
        if n >= 1 {
            assert(n + 1 <= n * (n + 1)) by (nonlinear_arith)
                requires
                    n >= 1,
            ;
        }
    }
    n * (n + 1) / 2 + j
}

/// Terms of order at most `p` land inside the array of `num_moments(p)`
/// coefficients.
pub proof fn law_moment_index_in_range(i: int, j: int, p: int)
    requires
        0 <= i,
        0 <= j,
        i + j <= p,
    ensures
        0 <= moment_index_spec(i, j) < num_moments_spec(p),
{
    let n = i + j;
    lemma_triangle_step(n);
    lemma_triangle_mono(n + 1, p + 1);
    assert(num_moments_spec(p) == triangle(p + 1)) by {
        assert((p + 1) * (p + 2) == (p + 1) * ((p + 1) + 1)) by (nonlinear_arith);
    }
}

/// Different terms never share a slot.
pub proof fn law_moment_index_injective(i1: int, j1: int, i2: int, j2: int)
    requires
        0 <= i1,
        0 <= j1,
        0 <= i2,
        0 <= j2,
        moment_index_spec(i1, j1) == moment_index_spec(i2, j2),
    ensures
        i1 == i2,
        j1 == j2,
{
    let n1 = i1 + j1;
    let n2 = i2 + j2;
    if n1 < n2 {
        lemma_triangle_step(n1);
        lemma_triangle_mono(n1 + 1, n2);
        assert(false);
    } else if n2 < n1 {
        lemma_triangle_step(n2);
        lemma_triangle_mono(n2 + 1, n1);
        assert(false);
    }
}

/// Every slot of the array holds some term of order at most `p`.
pub proof fn law_moment_index_onto(idx: int, p: int) -> (ij: (int, int))
    requires
        0 <= p,
        0 <= idx < num_moments_spec(p),
    ensures
        0 <= ij.0,
        0 <= ij.1,
        ij.0 + ij.1 <= p,
        moment_index_spec(ij.0, ij.1) == idx,
    decreases p,
{
    assert(num_moments_spec(p) == triangle(p + 1)) by {
        assert((p + 1) * (p + 2) == (p + 1) * ((p + 1) + 1)) by (nonlinear_arith);
    }
    lemma_triangle_step(p);
    if idx >= triangle(p) {
        let j = idx - triangle(p);
        (p - j, j)
    } else {
        assert(p > 0) by {
            if p == 0 {
                assert(triangle(0) == 0);
            }
        }
        assert(num_moments_spec(p - 1) == triangle(p)) by {
            assert(p * (p + 1) == p * (p + 1)) by (nonlinear_arith);
        }
        law_moment_index_onto(idx, p - 1)
    }
}

/// Position of the kernel derivative `G^(k,l)` in a buffer with rows of
/// `2p + 1` entries, one row per total order `k + l`.
pub fn kernel_deriv_idx(k: usize, l: usize, p: usize) -> (idx: usize)
    requires
        2 * p + 1 <= usize::MAX,
        (k + l) * (2 * p + 1) + l <= usize::MAX,
    ensures
        idx == (k + l) * (2 * p + 1) + l,
{
    proof {
        assert(k + l <= (k + l) * (2 * p + 1) && 2 * p + 1 <= (k + l) * (2 * p + 1) + 1 + 2 * p)
            by (nonlinear_arith)
            requires
                k >= 0,
                l >= 0,
                p >= 0,
        ;
        if k + l >= 1 {
            assert(2 * p + 1 <= (k + l) * (2 * p + 1)) by (nonlinear_arith)
                requires
                    k + l >= 1,
                    p >= 0,
            ;
        }
    }
    let n: usize = k + l;
    n * (2 * p + 1) + l
}

/// Derivatives of total order at most `2p` get distinct slots inside the
/// `(2p+1)^2` buffer.
pub proof fn law_kernel_deriv_idx_layout(k1: int, l1: int, k2: int, l2: int, p: int)
    requires
        0 <= p,
        0 <= k1,
        0 <= l1,
        0 <= k2,
        0 <= l2,
        k1 + l1 <= 2 * p,
        k2 + l2 <= 2 * p,
    ensures
        0 <= (k1 + l1) * (2 * p + 1) + l1 < (2 * p + 1) * (2 * p + 1),
        (k1 + l1) * (2 * p + 1) + l1 == (k2 + l2) * (2 * p + 1) + l2 ==> k1 == k2 && l1 == l2,
{
    let s = 2 * p + 1;
    let n1 = k1 + l1;
    let n2 = k2 + l2;
    assert(0 <= n1 * s + l1 < s * s) by (nonlinear_arith)
        requires
            0 <= n1 <= s - 1,
            0 <= l1 <= s - 1,
            s >= 1,
    ;
    if n1 * s + l1 == n2 * s + l2 {
        assert(n1 == n2 && l1 == l2) by (nonlinear_arith)
            requires
                n1 * s + l1 == n2 * s + l2,
                0 <= l1 < s,
                0 <= l2 < s,
                0 <= n1,
                0 <= n2,
        ;
    }
}

} // verus!
