//! The fixed-point number representation and its checked primitive operations.
//!
//! A value `x: u128` stands for the real number `x / SCALE`. All arithmetic
//! truncates toward zero (which on non-negative values is the floor), and
//! every operation that could leave the `u128` range reports that instead of
//! wrapping.

use vstd::prelude::*;
use vstd::arithmetic::div_mod::lemma_fundamental_div_mod;
use vstd::arithmetic::mul::lemma_mul_inequality;

verus! {

/// Number of fixed-point units per whole unit; a value `x` represents `x / SCALE`.
pub const SCALE: u128 = 4294967296;

/// Euler's number `e` in fixed-point units, truncated.
pub const E_FIXED: u128 = 11674931554;

/// `ln 2` in fixed-point units, truncated.
pub const LN2_FIXED: u128 = 2977044471;

/// The largest multiplicand that cannot overflow against `E_FIXED`.
pub const POW_GUARD: u128 = u128::MAX / E_FIXED;

/// The largest value that can be scaled up by `SCALE` without overflow.
pub const MAX_PRESCALE: u128 = u128::MAX / SCALE;

/// Largest magnitude a signed fixed-point result may take.
pub const SIGNED_MAX_MAG: u128 = 170141183460469231731687303715884105727;

/// From `a <= max / b` (truncating division) it follows that `a * b <= max`.
pub proof fn lemma_mul_le_from_div(a: int, b: int, max: int)
    requires
        0 <= a,
        0 < b,
        0 <= max,
        a <= max / b,
    ensures
        a * b <= max,
{
    lemma_fundamental_div_mod(max, b);
    lemma_mul_inequality(a, max / b, b);
}

/// From `a > max / b` (truncating division) it follows that `a * b > max`.
pub proof fn lemma_mul_gt_from_div(a: int, b: int, max: int)
    requires
        0 <= a,
        0 < b,
        0 <= max,
        a > max / b,
    ensures
        a * b > max,
{
    lemma_fundamental_div_mod(max, b);
    lemma_mul_inequality(max / b + 1, a, b);
    assert((max / b + 1) * b == (max / b) * b + b) by (nonlinear_arith);
    assert(b * (max / b) == (max / b) * b) by (nonlinear_arith);
    vstd::arithmetic::div_mod::lemma_mod_division_less_than_divisor(max, b);
}

/// The integer square root as a value: the unique non-negative `r` with
/// `r * r <= x < (r + 1) * (r + 1)`.
pub open spec fn sqrt_val(x: int) -> int {
    choose|r: int| r >= 0 && #[trigger] (r * r) <= x && x < (r + 1) * (r + 1)
}

/// Any witness of the square-root property is the square root.
pub proof fn lemma_sqrt_val(x: int, r: int)
    requires
        0 <= r,
        r * r <= x,
        x < (r + 1) * (r + 1),
    ensures
        sqrt_val(x) == r,
{
    assert(exists|c: int| c >= 0 && #[trigger] (c * c) <= x && x < (c + 1) * (c + 1)) by {
        assert(r >= 0 && r * r <= x && x < (r + 1) * (r + 1));
    }
    let c = sqrt_val(x);
    assert(c >= 0 && c * c <= x && x < (c + 1) * (c + 1));
    assert(c == r) by (nonlinear_arith)
        requires
            0 <= r,
            0 <= c,
            r * r <= x,
            x < (r + 1) * (r + 1),
            c * c <= x,
            x < (c + 1) * (c + 1),
    ;
}

/// Mathematical reading of an optional fixed-point value.
pub open spec fn opt_int(r: Option<u128>) -> Option<int> {
    match r {
        Some(v) => Some(v as int),
        None => None,
    }
}

/// Fixed-point product `a * b / SCALE`, `None` when `a * b` overflows.
pub open spec fn mul_fix_spec(a: int, b: int) -> Option<int> {
    if b > 0 && a > (u128::MAX as int) / b {
        None
    } else {
        Some(a * b / (SCALE as int))
    }
}

/// Fixed-point quotient `a * SCALE / b`, `None` on a zero divisor or overflow.
pub open spec fn div_fix_spec(a: int, b: int) -> Option<int> {
    if b == 0 {
        None
    } else if a > MAX_PRESCALE as int {
        None
    } else {
        Some(a * (SCALE as int) / b)
    }
}

/// Checked fixed-point multiplication.
pub fn mul_fix(a: u128, b: u128) -> (r: Option<u128>)
    ensures
        opt_int(r) == mul_fix_spec(a as int, b as int),
{
    if b > 0 && a > u128::MAX / b {
        None
    } else {
        proof {
            if b > 0 {
                lemma_mul_le_from_div(a as int, b as int, u128::MAX as int);
            }
        }
        Some(a * b / SCALE)
    }
}

/// Checked fixed-point division.
pub fn div_fix(a: u128, b: u128) -> (r: Option<u128>)
    ensures
        opt_int(r) == div_fix_spec(a as int, b as int),
{
    if b == 0 {
        None
    } else if a > MAX_PRESCALE {
        None
    } else {
        proof {
            lemma_mul_le_from_div(a as int, SCALE as int, u128::MAX as int);
        }
        Some(a * SCALE / b)
    }
}

/// Integer square root: the unique `r` with `r * r <= x < (r + 1) * (r + 1)`.
pub fn isqrt(x: u128) -> (r: u128)
    ensures
        (r as int) * (r as int) <= x as int,
        (x as int) < (r as int + 1) * (r as int + 1),
{
    let mut lo: u128 = 0;
    let mut hi: u128 = 18446744073709551616;
    proof {
        assert((x as int) < 18446744073709551616 * 18446744073709551616) by (nonlinear_arith)
            requires
                x <= u128::MAX,
        ;
    }
    while hi - lo > 1
        invariant
            lo < hi,
            hi <= 18446744073709551616,
            (lo as int) * (lo as int) <= x as int,
            (x as int) < (hi as int) * (hi as int),
        decreases hi - lo,
    {
        let mid: u128 = lo + (hi - lo) / 2;
        proof {
            assert((mid as int) * (mid as int) < 18446744073709551616 * 18446744073709551616)
                by (nonlinear_arith)
                requires
                    mid < 18446744073709551616,
            ;
        }
        if mid * mid <= x {
            lo = mid;
        } else {
            hi = mid;
        }
    }
    lo
}

} // verus!
