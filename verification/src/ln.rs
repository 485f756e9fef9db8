//! Fixed-point natural logarithm.
//!
//! `ln_fixed(y)` evaluates `ln(y / SCALE) * SCALE`, truncated, for `y` at
//! least one whole unit. The argument is normalized by halving into a
//! mantissa `m` in `[SCALE, 2 * SCALE)`; the logarithm of the mantissa comes
//! from the inverse-hyperbolic-tangent series
//! `ln m = 2 * (z + z^3/3 + z^5/5 + ...)` with `z = (m - 1) / (m + 1)`,
//! and each halving contributes one `LN2_FIXED`. The function is total on its
//! domain: every intermediate value fits.

use vstd::prelude::*;
use vstd::arithmetic::div_mod::{
    lemma_div_is_ordered_by_denominator, lemma_div_pos_is_pos,
    lemma_div_nonincreasing, lemma_fundamental_div_mod, lemma_multiply_divide_le,
    lemma_multiply_divide_lt,
};

use crate::fixed::{LN2_FIXED, SCALE};

verus! {

/// Number of odd-power series terms used for the mantissa.
pub const LN_TERMS: u128 = 16;

/// How many halvings bring `y` under two whole units.
pub open spec fn norm_shifts(y: int) -> nat
    decreases y,
{
    if y < 2 * (SCALE as int) {
        0
    } else {
        1 + norm_shifts(y / 2)
    }
}

/// The mantissa left over after those halvings.
pub open spec fn norm_mant(y: int) -> int
    decreases y,
{
    if y < 2 * (SCALE as int) {
        y
    } else {
        norm_mant(y / 2)
    }
}

/// Series argument for a mantissa `m`: `z = (m - SCALE) * SCALE / (m + SCALE)`.
pub open spec fn ln_z(m: int) -> int {
    (m - SCALE as int) * (SCALE as int) / (m + SCALE as int)
}

/// Odd power `z^(2j+1)` of the series argument, truncated at each step.
pub open spec fn ln_term(z: int, j: nat) -> int
    decreases j,
{
    if j == 0 {
        z
    } else {
        ln_term(z, (j - 1) as nat) * (z * z / (SCALE as int)) / (SCALE as int)
    }
}

/// Partial series sum `z + z^3/3 + ... + z^(2j+1)/(2j+1)`, truncated.
pub open spec fn ln_series(z: int, j: nat) -> int
    decreases j,
{
    if j == 0 {
        z
    } else {
        ln_series(z, (j - 1) as nat) + ln_term(z, j) / (2 * j as int + 1)
    }
}

/// Fixed-point `ln` on arguments of at least one whole unit.
pub open spec fn ln_spec(y: int) -> int {
    norm_shifts(y) * (LN2_FIXED as int) + 2 * ln_series(ln_z(norm_mant(y)), (LN_TERMS - 1) as nat)
}

/// Powers of two, for bounding the shift count.
spec fn pot(k: nat) -> int
    decreases k,
{
    if k == 0 {
        1
    } else {
        2 * pot((k - 1) as nat)
    }
}

/// A power of two exceeds its exponent.
proof fn lemma_pot_lower(k: nat)
    ensures
        pot(k) >= k + 1,
    decreases k,
{
    if k > 0 {
        lemma_pot_lower((k - 1) as nat);
    }
}

/// Series terms shrink: each is non-negative and at most `z`.
proof fn lemma_ln_term_bounds(z: int, j: nat)
    requires
        0 <= z < SCALE,
    ensures
        0 <= ln_term(z, j) <= z,
    decreases j,
{
    if j > 0 {
        lemma_ln_term_bounds(z, (j - 1) as nat);
        let prev = ln_term(z, (j - 1) as nat);
        let w = z * z / (SCALE as int);
        assert(z * z <= (SCALE as int) * z) by (nonlinear_arith)
            requires
                0 <= z < SCALE,
        ;
        lemma_multiply_divide_le(z * z, SCALE as int, z);
        lemma_div_pos_is_pos(z * z, SCALE as int);
        assert(prev * w <= (SCALE as int) * prev) by (nonlinear_arith)
            requires
                0 <= prev,
                0 <= w < SCALE,
        ;
        lemma_multiply_divide_le(prev * w, SCALE as int, prev);
        lemma_div_pos_is_pos(prev * w, SCALE as int);
    }
}

/// The partial sums stay between `z` and `(j + 1) * z`.
proof fn lemma_ln_series_bounds(z: int, j: nat)
    requires
        0 <= z < SCALE,
    ensures
        z <= ln_series(z, j) <= (j + 1) * z,
    decreases j,
{
    if j > 0 {
        lemma_ln_series_bounds(z, (j - 1) as nat);
        lemma_ln_term_bounds(z, j);
        lemma_div_pos_is_pos(ln_term(z, j), 2 * j as int + 1);
        assert(ln_term(z, j) / (2 * j as int + 1) <= ln_term(z, j)) by {
            lemma_div_nonincreasing(ln_term(z, j), 2 * j as int + 1);
        }
        assert((j as int + 1) * z == (j as int) * z + 1 * z) by {
            vstd::arithmetic::mul::lemma_mul_is_distributive_add_other_way(z, j as int, 1);
        }
    }
}

/// Executable fixed-point logarithm.
pub fn ln_fixed(y: u128) -> (r: u128)
    requires
        y >= SCALE,
    ensures
        r == ln_spec(y as int),
{
    let mut m: u128 = y;
    let mut k: u128 = 0;
    while m >= 2 * SCALE
        invariant
            SCALE <= m <= y,
            norm_mant(y as int) == norm_mant(m as int),
            norm_shifts(y as int) == k + norm_shifts(m as int),
            (m as int) * pot(k as nat) <= y as int,
        decreases m,
    {
        proof {
            let mi = m as int;
            let ki = k as nat;
            lemma_pot_lower(ki);
            lemma_fundamental_div_mod(mi, 2);
            assert((mi / 2) * pot((ki + 1) as nat) <= mi * pot(ki)) by (nonlinear_arith)
                requires
                    pot((ki + 1) as nat) == 2 * pot(ki),
                    (mi / 2) * 2 <= mi,
                    pot(ki) >= 1,
                    mi / 2 >= 0,
            ;
            assert((SCALE as int) * (k as int + 1) <= y as int) by (nonlinear_arith)
                requires
                    SCALE as int <= mi,
                    k as int + 1 <= pot(ki),
                    pot(ki) >= 1,
                    mi * pot(ki) <= y as int,
            ;
        }
        m = m / 2;
        k = k + 1;
    }
    proof {
        let ki = k as nat;
        lemma_pot_lower(ki);
        assert((SCALE as int) * (k as int + 1) <= (m as int) * pot(ki)) by (nonlinear_arith)
            requires
                SCALE <= m as int,
                k as int + 1 <= pot(ki),
                pot(ki) >= 1,
        ;
        assert(k as int * (LN2_FIXED as int) <= (u128::MAX as int) - 2 * 16 * (SCALE as int))
            by (nonlinear_arith)
            requires
                0 <= k as int,
                (SCALE as int) * (k as int + 1) <= u128::MAX as int,
                SCALE == 4294967296u128,
                LN2_FIXED == 2977044471u128,
        ;
    }
    // mantissa series: z = (m - SCALE) * SCALE / (m + SCALE) < SCALE / 2
    let z: u128 = (m - SCALE) * SCALE / (m + SCALE);
    proof {
        let num = (m as int - SCALE as int) * (SCALE as int);
        assert(num < (m as int + SCALE as int) * (SCALE as int) && num >= 0) by (nonlinear_arith)
            requires
                SCALE as int <= m as int,
                num == (m as int - SCALE as int) * (SCALE as int),
        ;
        lemma_multiply_divide_lt(num, m as int + SCALE as int, SCALE as int);
        lemma_div_pos_is_pos(num, m as int + SCALE as int);
        lemma_ln_term_bounds(z as int, (LN_TERMS - 1) as nat);
        lemma_ln_series_bounds(z as int, (LN_TERMS - 1) as nat);
    }
    proof {
        assert((z as int) * (z as int) <= (SCALE as int) * (z as int)) by (nonlinear_arith)
            requires
                0 <= (z as int) <= (SCALE as int),
        ;
        lemma_multiply_divide_le((z as int) * (z as int), SCALE as int, z as int);
        lemma_div_pos_is_pos((z as int) * (z as int), SCALE as int);
    }
    let w: u128 = z * z / SCALE;
    let mut t: u128 = z;
    let mut acc: u128 = z;
    let mut j: u128 = 1;
    while j < LN_TERMS
        invariant
            1 <= j <= LN_TERMS,
            z < SCALE,
            w == (z as int) * (z as int) / (SCALE as int),
            w <= z,
            t == ln_term(z as int, (j - 1) as nat),
            t <= z,
            acc == ln_series(z as int, (j - 1) as nat),
            z <= acc <= j * z,
        decreases LN_TERMS - j,
    {
        proof {
            lemma_ln_term_bounds(z as int, j as nat);
            assert((t as int) * (w as int) <= (SCALE as int) * (t as int)) by (nonlinear_arith)
                requires
                    0 <= t as int,
                    0 <= w as int <= SCALE as int,
            ;
            assert((j as int) * (z as int) + z as int == (j as int + 1) * (z as int))
                by (nonlinear_arith);
        }
        t = t * w / SCALE;
        proof {
            lemma_div_nonincreasing(t as int, 2 * j as int + 1);
            assert(acc as int <= 16 * (SCALE as int)) by (nonlinear_arith)
                requires
                    acc as int <= j as int * (z as int),
                    j <= 16,
                    0 <= (z as int) < (SCALE as int),
            ;
        }
        acc = acc + t / (2 * j + 1);
        j = j + 1;
    }
    proof {
        assert(norm_shifts(m as int) == 0);
        assert(norm_mant(m as int) == m as int);
        assert(acc <= 16 * (SCALE as int)) by (nonlinear_arith)
            requires
                acc <= (LN_TERMS as int) * (z as int),
                LN_TERMS == 16u128,
                z < SCALE,
        ;
    }
    k * LN2_FIXED + 2 * acc
}

} // verus!
