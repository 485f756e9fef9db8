//! Fixed-point exponential.
//!
//! `exp_fixed(x)` evaluates `exp(x / SCALE) * SCALE`, truncated: the argument
//! is split into its whole part `n` and fractional part `f`, the whole part is
//! handled by repeated multiplication with `E_FIXED` and the fractional part
//! by a truncated Taylor series. `None` is returned exactly where an
//! intermediate product would overflow, the analogue of the floating-point
//! overflow to infinity that the unstabilized log-sum-exp accepts; with this
//! scale that bounds the argument near `44` whole units. The stabilized
//! log-sum-exp only ever exponentiates non-positive re-centred arguments and
//! so has no such bound.

use vstd::prelude::*;
use vstd::arithmetic::div_mod::{
    lemma_div_is_ordered, lemma_div_is_ordered_by_denominator, lemma_div_multiples_vanish,
    lemma_div_pos_is_pos, lemma_multiply_divide_le,
};
use vstd::arithmetic::mul::lemma_mul_inequality;
use crate::fixed::{lemma_mul_le_from_div, E_FIXED, POW_GUARD, SCALE};

verus! {

/// Number of Taylor terms used for the fractional part.
pub const EXP_TERMS: u128 = 20;

/// Term `k` of the truncated Taylor series for `exp` on `[0, 1)`:
/// `t_0 = SCALE`, `t_k = t_{k-1} * f / (SCALE * k)`.
pub open spec fn exp_term(f: int, k: nat) -> int
    decreases k,
{
    if k == 0 {
        SCALE as int
    } else {
        exp_term(f, (k - 1) as nat) * f / (SCALE as int * k as int)
    }
}

/// Partial sum of the series through term `k`.
pub open spec fn exp_frac_sum(f: int, k: nat) -> int
    decreases k,
{
    if k == 0 {
        exp_term(f, 0)
    } else {
        exp_frac_sum(f, (k - 1) as nat) + exp_term(f, k)
    }
}

/// Fixed-point `exp` on a fractional argument `0 <= f < SCALE`.
pub open spec fn exp_frac(f: int) -> int {
    exp_frac_sum(f, (EXP_TERMS - 1) as nat)
}

/// Every Taylor term is non-negative and bounded by the first, `SCALE`.
proof fn lemma_exp_term_bounds(f: int, k: nat)
    requires
        0 <= f < SCALE,
    ensures
        0 <= exp_term(f, k) <= SCALE,
    decreases k,
{
    if k > 0 {
        lemma_exp_term_bounds(f, (k - 1) as nat);
        let prev = exp_term(f, (k - 1) as nat);
        let d = SCALE as int * k as int;
        assert(SCALE as int <= SCALE as int * k as int) by (nonlinear_arith)
            requires
                k >= 1,
        ;
        lemma_div_pos_is_pos(prev * f, d);
        assert(prev * f <= d * (SCALE as int)) by (nonlinear_arith)
            requires
                0 <= prev <= SCALE,
                0 <= f < SCALE,
                SCALE as int <= d,
        ;
        lemma_multiply_divide_le(prev * f, d, SCALE as int);
    }
}

/// The partial sums grow from `SCALE` to at most one `SCALE` per term.
proof fn lemma_exp_frac_sum_bounds(f: int, k: nat)
    requires
        0 <= f < SCALE,
    ensures
        SCALE as int <= exp_frac_sum(f, k) <= (k + 1) * (SCALE as int),
    decreases k,
{
    lemma_exp_term_bounds(f, k);
    if k > 0 {
        lemma_exp_frac_sum_bounds(f, (k - 1) as nat);
        assert((k as int) * (SCALE as int) + SCALE as int == (k + 1) * (SCALE as int))
            by (nonlinear_arith);
    }
}

/// The truncated series for `exp` on `[0, 1)`, between `1` and `EXP_TERMS`.
pub proof fn lemma_exp_frac_bounds(f: int)
    requires
        0 <= f < SCALE,
    ensures
        SCALE as int <= exp_frac(f) <= (EXP_TERMS as int) * (SCALE as int),
{
    lemma_exp_frac_sum_bounds(f, (EXP_TERMS - 1) as nat);
}

/// Fixed-point `exp` of the whole argument `n`: `p_0 = SCALE`,
/// `p_n = p_{n-1} * E_FIXED / SCALE`, `None` once a product would overflow.
pub open spec fn pow_e_opt(n: nat) -> Option<int>
    decreases n,
{
    if n == 0 {
        Some(SCALE as int)
    } else {
        match pow_e_opt((n - 1) as nat) {
            None => None,
            Some(p) => if p > POW_GUARD as int {
                None
            } else {
                Some(p * (E_FIXED as int) / (SCALE as int))
            },
        }
    }
}

/// Once the whole-part chain overflows it stays overflowed.
proof fn lemma_pow_e_none(i: nat, n: nat)
    requires
        i <= n,
        pow_e_opt(i) is None,
    ensures
        pow_e_opt(n) is None,
    decreases n - i,
{
    if n > i {
        lemma_pow_e_none(i, (n - 1) as nat);
    }
}

/// A defined whole-part power is at least one whole unit.
proof fn lemma_pow_e_lower(n: nat, p: int)
    requires
        pow_e_opt(n) == Some(p),
    ensures
        p >= SCALE,
    decreases n,
{
    if n > 0 {
        let prev = pow_e_opt((n - 1) as nat);
        match prev {
            None => {
                assert(false);
            },
            Some(pp) => {
                lemma_pow_e_lower((n - 1) as nat, pp);
                lemma_mul_inequality(SCALE as int, pp, E_FIXED as int);
                assert(pp * (E_FIXED as int) >= pp * (SCALE as int)) by (nonlinear_arith)
                    requires
                        pp >= 0,
                ;
                lemma_div_is_ordered(pp * (SCALE as int), pp * (E_FIXED as int), SCALE as int);
                lemma_div_multiples_vanish(pp, SCALE as int);
            },
        }
    }
}

/// Fixed-point `exp` over the whole non-negative range, `None` on overflow.
pub open spec fn exp_opt(x: int) -> Option<int> {
    match pow_e_opt((x / (SCALE as int)) as nat) {
        None => None,
        Some(p) => {
            let ef = exp_frac(x % (SCALE as int));
            if p > (u128::MAX as int) / ef {
                None
            } else {
                Some(p * ef / (SCALE as int))
            }
        },
    }
}

/// A defined exponential is at least one whole unit.
pub proof fn lemma_exp_opt_lower(x: int, v: int)
    requires
        0 <= x,
        exp_opt(x) == Some(v),
    ensures
        v >= SCALE,
{
    let n = (x / (SCALE as int)) as nat;
    let f = x % (SCALE as int);
    lemma_div_pos_is_pos(x, SCALE as int);
    match pow_e_opt(n) {
        None => {
            assert(false);
        },
        Some(p) => {
            lemma_pow_e_lower(n, p);
            lemma_exp_frac_bounds(f);
            let ef = exp_frac(f);
            lemma_mul_inequality(SCALE as int, p, ef);
            assert(p * ef >= p * (SCALE as int)) by (nonlinear_arith)
                requires
                    p >= 0,
                    ef >= SCALE as int,
            ;
            lemma_div_is_ordered(p * (SCALE as int), p * ef, SCALE as int);
            lemma_div_multiples_vanish(p, SCALE as int);
        },
    }
}

/// Taylor evaluation of `exp` on a fractional argument.
fn exp_frac_fixed(f: u128) -> (r: u128)
    requires
        f < SCALE,
    ensures
        r == exp_frac(f as int),
        SCALE <= r <= EXP_TERMS * SCALE,
{
    let mut term: u128 = SCALE;
    let mut sum: u128 = SCALE;
    let mut k: u128 = 1;
    while k < EXP_TERMS
        invariant
            1 <= k <= EXP_TERMS,
            f < SCALE,
            term == exp_term(f as int, (k - 1) as nat),
            term <= SCALE,
            sum == exp_frac_sum(f as int, (k - 1) as nat),
            SCALE <= sum <= k * SCALE,
        decreases EXP_TERMS - k,
    {
        proof {
            lemma_exp_term_bounds(f as int, k as nat);
            assert(term * f <= SCALE as int * (SCALE as int * k as int)) by (nonlinear_arith)
                requires
                    0 <= term <= SCALE,
                    0 <= f < SCALE,
                    k >= 1,
            ;
            assert((k + 1) * (SCALE as int) == k as int * SCALE as int + SCALE as int)
                by (nonlinear_arith);
        }
        term = term * f / (SCALE * k);
        sum = sum + term;
        k = k + 1;
    }
    sum
}

/// Fixed-point exponential of a non-negative argument; `None` exactly where
/// an intermediate product leaves the `u128` range.
pub fn exp_fixed(x: u128) -> (r: Option<u128>)
    ensures
        crate::fixed::opt_int(r) == exp_opt(x as int),
        (r matches Some(v) ==> v >= SCALE),
{
    let n: u128 = x / SCALE;
    let f: u128 = x % SCALE;
    let mut p: u128 = SCALE;
    let mut i: u128 = 0;
    while i < n
        invariant
            i <= n,
            n == x as int / (SCALE as int),
            pow_e_opt(i as nat) == Some(p as int),
        decreases n - i,
    {
        if p > POW_GUARD {
            proof {
                assert(pow_e_opt((i + 1) as nat) is None);
                lemma_pow_e_none((i + 1) as nat, n as nat);
            }
            return None;
        }
        proof {
            lemma_mul_le_from_div(p as int, E_FIXED as int, u128::MAX as int);
        }
        p = p * E_FIXED / SCALE;
        i = i + 1;
    }
    let ef = exp_frac_fixed(f);
    proof {
        lemma_exp_frac_bounds(f as int);
    }
    if p > u128::MAX / ef {
        return None;
    }
    proof {
        lemma_mul_le_from_div(p as int, ef as int, u128::MAX as int);
        lemma_pow_e_lower(n as nat, p as int);
        lemma_mul_inequality(SCALE as int, p as int, ef as int);
        assert(p as int * ef as int >= p as int * SCALE as int) by (nonlinear_arith)
            requires
                p >= 0,
                ef >= SCALE,
        ;
        lemma_div_is_ordered(p as int * SCALE as int, p as int * ef as int, SCALE as int);
        lemma_div_multiples_vanish(p as int, SCALE as int);
    }
    Some(p * ef / SCALE)
}

/// Fixed-point `exp(-d / SCALE)`: the reciprocal of `exp_fixed(d)`, and zero
/// where the true value lies below one fixed-point unit.
pub open spec fn exp_neg(d: int) -> int {
    match exp_opt(d) {
        None => 0,
        Some(v) => (SCALE as int) * (SCALE as int) / v,
    }
}

/// The negated-argument exponential never exceeds one whole unit.
pub proof fn lemma_exp_neg_bounds(d: int)
    requires
        0 <= d,
    ensures
        0 <= exp_neg(d) <= SCALE,
{
    match exp_opt(d) {
        None => {},
        Some(v) => {
            lemma_exp_opt_lower(d, v);
            lemma_div_pos_is_pos((SCALE as int) * (SCALE as int), v);
            lemma_div_is_ordered_by_denominator((SCALE as int) * (SCALE as int), SCALE as int, v);
            lemma_div_multiples_vanish(SCALE as int, SCALE as int);
        },
    }
}

/// Executable form of `exp_neg`.
pub fn exp_neg_fixed(d: u128) -> (r: u128)
    ensures
        r == exp_neg(d as int),
        r <= SCALE,
{
    proof {
        lemma_exp_neg_bounds(d as int);
    }
    match exp_fixed(d) {
        None => 0,
        Some(v) => SCALE * SCALE / v,
    }
}

} // verus!
