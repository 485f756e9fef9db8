//! The sigmoid dynamic fee.
//!
//! `sigmoid_fee(amplitude, midpoint, curvature, reference)` evaluates, in
//! fixed point, `amplitude * (reference - midpoint) /
//! sqrt(curvature + (reference - midpoint)^2)`. The amplitude and curvature
//! are non-negative by type; midpoint and reference may be any signed
//! fixed-point values. The result is bounded by the amplitude in magnitude
//! and carries the sign of `reference - midpoint`. `None` is returned where
//! the denominator is zero (curvature zero and reference at the midpoint,
//! the analogue of the floating-point `0 / 0`) or an intermediate value is
//! not representable.

use vstd::prelude::*;
use vstd::arithmetic::div_mod::{
    lemma_div_is_ordered_by_denominator, lemma_div_nonincreasing, lemma_div_pos_is_pos,
    lemma_div_by_multiple,
};
use crate::fixed::{
    isqrt, lemma_mul_gt_from_div, lemma_mul_le_from_div, lemma_sqrt_val, sqrt_val, SCALE,
    SIGNED_MAX_MAG,
};

verus! {

/// The sigmoid fee, step by step: with `d` the magnitude of
/// `reference - midpoint`, the numerator is `amplitude * d`, the denominator
/// the integer square root of `curvature * SCALE + d * d` (which is the
/// radicand of the real formula carried to fixed-point units), and the result
/// their truncated quotient with the sign of `reference - midpoint`.
pub open spec fn sigmoid_spec(m: int, n: int, p: int, r: int) -> Option<int> {
    let d = if r >= n {
        r - n
    } else {
        n - r
    };
    if m * d > SIGNED_MAX_MAG as int {
        None
    } else if p * (SCALE as int) + d * d > u128::MAX as int {
        None
    } else if p * (SCALE as int) + d * d == 0 {
        None
    } else {
        let den = sqrt_val(p * (SCALE as int) + d * d);
        let v = m * d / den;
        if r >= n {
            Some(v)
        } else {
            Some(-v)
        }
    }
}

/// Magnitude of a negative signed value.
fn neg_mag(x: i128) -> (r: u128)
    requires
        x < 0,
    ensures
        r as int == -(x as int),
{
    if x == i128::MIN {
        170141183460469231731687303715884105728u128
    } else {
        (-x) as u128
    }
}

/// Sign and magnitude of the difference `r - n` of two signed values.
fn diff_parts(r: i128, n: i128) -> (res: (bool, u128))
    ensures
        res.0 == (r >= n),
        res.1 as int == (if r >= n {
            r as int - n as int
        } else {
            n as int - r as int
        }),
{
    if r >= n {
        if n >= 0 {
            (true, (r - n) as u128)
        } else if r >= 0 {
            (true, (r as u128) + neg_mag(n))
        } else {
            (true, neg_mag(n) - neg_mag(r))
        }
    } else {
        if r >= 0 {
            (false, (n - r) as u128)
        } else if n >= 0 {
            (false, (n as u128) + neg_mag(r))
        } else {
            (false, neg_mag(r) - neg_mag(n))
        }
    }
}

/// The sigmoid dynamic fee. Where it is defined, its magnitude never exceeds
/// the amplitude.
pub fn sigmoid_fee(amplitude: u128, midpoint: i128, curvature: u128, reference: i128) -> (res:
    Option<i128>)
    ensures
        (match res {
            Some(v) => {
                &&& sigmoid_spec(
                    amplitude as int,
                    midpoint as int,
                    curvature as int,
                    reference as int,
                ) == Some(v as int)
                &&& -(amplitude as int) <= v as int <= amplitude as int
                &&& (reference >= midpoint ==> v >= 0)
                &&& (reference < midpoint ==> v <= 0)
            },
            None => sigmoid_spec(
                amplitude as int,
                midpoint as int,
                curvature as int,
                reference as int,
            ) is None,
        }),
{
    let (nonneg, dm) = diff_parts(reference, midpoint);
    if dm > 0 && amplitude > SIGNED_MAX_MAG / dm {
        proof {
            lemma_mul_gt_from_div(amplitude as int, dm as int, SIGNED_MAX_MAG as int);
        }
        return None;
    }
    proof {
        if dm > 0 {
            lemma_mul_le_from_div(amplitude as int, dm as int, SIGNED_MAX_MAG as int);
        }
    }
    let num = amplitude * dm;
    if curvature > u128::MAX / SCALE {
        proof {
            lemma_mul_gt_from_div(curvature as int, SCALE as int, u128::MAX as int);
            assert((dm as int) * (dm as int) >= 0) by (nonlinear_arith);
        }
        return None;
    }
    proof {
        lemma_mul_le_from_div(curvature as int, SCALE as int, u128::MAX as int);
    }
    let ps = curvature * SCALE;
    if dm > 0 && dm > u128::MAX / dm {
        proof {
            lemma_mul_gt_from_div(dm as int, dm as int, u128::MAX as int);
        }
        return None;
    }
    proof {
        if dm > 0 {
            lemma_mul_le_from_div(dm as int, dm as int, u128::MAX as int);
        }
    }
    let dd = dm * dm;
    if ps > u128::MAX - dd {
        return None;
    }
    let rad = ps + dd;
    if rad == 0 {
        return None;
    }
    let den = isqrt(rad);
    proof {
        lemma_sqrt_val(rad as int, den as int);
        if den == 0 {
            assert(false);
        }
    }
    let q = num / den;
    proof {
        lemma_div_nonincreasing(num as int, den as int);
        if dm > 0 {
            assert(den as int >= dm as int) by (nonlinear_arith)
                requires
                    0 <= den as int,
                    0 <= dm as int,
                    (dm as int) * (dm as int) <= rad as int,
                    (rad as int) < (den as int + 1) * (den as int + 1),
            ;
            lemma_div_is_ordered_by_denominator(num as int, dm as int, den as int);
            lemma_div_by_multiple(amplitude as int, dm as int);
        } else {
            lemma_div_pos_is_pos(num as int, den as int);
        }
    }
    if nonneg {
        Some(q as i128)
    } else {
        Some(-(q as i128))
    }
}

} // verus!
