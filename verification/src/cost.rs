//! The AMM cost potential.
//!
//! `cost(fee, balances)` evaluates, in fixed point,
//! `fee * sum(balances) * log_sum_exp(balances[i] / (fee * sum(balances)))`.
//! Its differences before and after a trade are the payment the curve asks;
//! the value in isolation is not a price. `cost_stable` is the same potential
//! computed through the stabilized log-sum-exp, defined on inputs whose
//! exponentials the literal form cannot represent.

use vstd::prelude::*;
use crate::exp::{exp_opt, lemma_exp_opt_lower};
use crate::fixed::{lemma_mul_le_from_div, mul_fix, mul_fix_spec, MAX_PRESCALE, SCALE};
use crate::lse::{log_sum_exp, log_sum_exp_stable, lse_opt, lse_stable_opt, sum_exp_opt};
use crate::AmmError;

verus! {

/// Mathematical reading of a fixed-point result.
pub open spec fn res_int(r: Result<u128, AmmError>) -> Result<int, AmmError> {
    match r {
        Ok(v) => Ok(v as int),
        Err(e) => Err(e),
    }
}

/// Sum of a sequence of integers.
pub open spec fn sum_seq(s: Seq<int>) -> int
    decreases s.len(),
{
    if s.len() == 0 {
        0
    } else {
        sum_seq(s.drop_last()) + s.last()
    }
}

/// With non-negative elements the sum is non-negative and dominates every
/// prefix sum.
pub proof fn lemma_sum_take_le(s: Seq<int>, i: int)
    requires
        0 <= i <= s.len(),
        forall|j: int| 0 <= j < s.len() ==> s[j] >= 0,
    ensures
        0 <= sum_seq(s.take(i)) <= sum_seq(s),
    decreases s.len(),
{
    if i == s.len() {
        assert(s.take(i) =~= s);
        lemma_sum_nonneg(s);
    } else {
        assert(s.take(i) =~= s.drop_last().take(i));
        lemma_sum_take_le(s.drop_last(), i);
    }
}

/// A sum of non-negative elements is non-negative.
pub proof fn lemma_sum_nonneg(s: Seq<int>)
    requires
        forall|j: int| 0 <= j < s.len() ==> s[j] >= 0,
    ensures
        sum_seq(s) >= 0,
    decreases s.len(),
{
    if s.len() > 0 {
        lemma_sum_nonneg(s.drop_last());
    }
}

/// The normalized exponent vector: each balance divided by the liquidity
/// factor `k`, in fixed point.
pub open spec fn scaled_exponents(bals: Seq<int>, k: int) -> Seq<int> {
    bals.map_values(|b: int| b * (SCALE as int) / k)
}

/// The cost potential, step by step: reject an empty vector, a zero fee and
/// a zero reserve sum; form the liquidity factor `k = fee * sum`; scale the
/// balances by `k`; apply the chosen log-sum-exp; scale back by `k`. Every
/// value that leaves the fixed-point range is `Overflow`, as is a liquidity
/// factor that truncates to zero.
pub open spec fn cost_spec(fee: int, bals: Seq<int>, stable: bool) -> Result<int, AmmError> {
    if bals.len() == 0 {
        Err(AmmError::EmptyBalances)
    } else if fee == 0 {
        Err(AmmError::ZeroFee)
    } else if sum_seq(bals) > u128::MAX as int {
        Err(AmmError::Overflow)
    } else if sum_seq(bals) == 0 {
        Err(AmmError::ZeroSum)
    } else {
        match mul_fix_spec(fee, sum_seq(bals)) {
            None => Err(AmmError::Overflow),
            Some(k) => if k == 0 {
                Err(AmmError::Overflow)
            } else if exists|i: int| 0 <= i < bals.len() && bals[i] > MAX_PRESCALE as int {
                Err(AmmError::Overflow)
            } else {
                let l = if stable {
                    lse_stable_opt(scaled_exponents(bals, k))
                } else {
                    lse_opt(scaled_exponents(bals, k))
                };
                match l {
                    None => Err(AmmError::Overflow),
                    Some(lv) => match mul_fix_spec(k, lv) {
                        None => Err(AmmError::Overflow),
                        Some(c) => Ok(c),
                    },
                }
            },
        }
    }
}

/// Symmetry of the cost potential over a uniform reserve vector, in the form
/// the fixed-point arithmetic obeys exactly: `n` equal reserves produce `n`
/// equal exponents, so the argument of the logarithm inside the cost is
/// exactly `n` times one exponential — the shape behind the closed form
/// `cost(fee, [v; n]) = K * ln(n) + v`. The closed form itself also needs
/// `ln(n * x) = ln(n) + ln(x)`, which the truncated logarithm obeys only up
/// to rounding; it is checked numerically by the test suite.
pub proof fn lemma_uniform_reserves_symmetric(v: int, n: nat, k: int, ev: int)
    requires
        n >= 1,
        0 <= v,
        0 < k,
        exp_opt(v * (SCALE as int) / k) == Some(ev),
        n * ev <= u128::MAX as int,
    ensures
        sum_exp_opt(scaled_exponents(Seq::new(n, |i: int| v), k)) == Some(n * ev),
    decreases n,
{
    let s = Seq::new(n, |i: int| v);
    let scaled = scaled_exponents(s, k);
    vstd::arithmetic::mul::lemma_mul_nonnegative(v, SCALE as int);
    vstd::arithmetic::div_mod::lemma_div_pos_is_pos(v * (SCALE as int), k);
    lemma_exp_opt_lower(v * (SCALE as int) / k, ev);
    if n == 1 {
        assert(scaled.drop_last() =~= Seq::<int>::empty());
        assert(sum_exp_opt(scaled.drop_last()) == Some(0int));
        assert(scaled.last() == v * (SCALE as int) / k);
        assert(1 * ev == ev) by (nonlinear_arith);
        assert(sum_exp_opt(scaled) == Some(n * ev));
    } else {
        assert(scaled.drop_last() =~= scaled_exponents(Seq::new((n - 1) as nat, |i: int| v), k));
        assert((n - 1) * ev <= n * ev && 0 <= (n - 1) * ev) by (nonlinear_arith)
            requires
                n >= 1,
                ev >= 0,
        ;
        lemma_uniform_reserves_symmetric(v, (n - 1) as nat, k, ev);
        assert((n - 1) * ev + ev == n * ev) by (nonlinear_arith);
        assert(scaled.last() == v * (SCALE as int) / k);
    }
}

/// Shared body of the two cost entry points.
#[verifier::loop_isolation(false)]
fn cost_with(fee: u128, balances: &Vec<u128>, stable: bool) -> (r: Result<u128, AmmError>)
    ensures
        res_int(r) == cost_spec(fee as int, balances@.map_values(|x: u128| x as int), stable),
{
    let ghost bs = balances@.map_values(|x: u128| x as int);
    proof {
        assert(forall|j: int| 0 <= j < bs.len() ==> bs[j] >= 0);
    }
    if balances.len() == 0 {
        return Err(AmmError::EmptyBalances);
    }
    if fee == 0 {
        return Err(AmmError::ZeroFee);
    }
    let mut sum: u128 = 0;
    let mut i: usize = 0;
    while i < balances.len()
        invariant
            0 <= i <= balances.len(),
            bs == balances@.map_values(|x: u128| x as int),
            bs.len() == balances.len(),
            sum_seq(bs.take(i as int)) == sum as int,
        decreases balances.len() - i,
    {
        proof {
            assert(bs.take(i as int + 1).drop_last() =~= bs.take(i as int));
            assert(bs.take(i as int + 1).last() == bs[i as int]);
        }
        let b = balances[i];
        if sum > u128::MAX - b {
            proof {
                assert(forall|j: int| 0 <= j < bs.len() ==> bs[j] >= 0);
                lemma_sum_take_le(bs, i as int + 1);
            }
            return Err(AmmError::Overflow);
        }
        sum = sum + b;
        i = i + 1;
    }
    proof {
        assert(bs.take(bs.len() as int) =~= bs);
    }
    if sum == 0 {
        return Err(AmmError::ZeroSum);
    }
    let kk = match mul_fix(fee, sum) {
        None => {
            return Err(AmmError::Overflow);
        },
        Some(k) => k,
    };
    if kk == 0 {
        return Err(AmmError::Overflow);
    }
    let mut exps: Vec<u128> = Vec::new();
    let mut i: usize = 0;
    while i < balances.len()
        invariant
            0 <= i <= balances.len(),
            bs == balances@.map_values(|x: u128| x as int),
            bs.len() == balances.len(),
            exps@.len() == i,
            forall|t: int| 0 <= t < i ==> bs[t] <= MAX_PRESCALE as int,
            forall|t: int| 0 <= t < i ==> exps@[t] as int == bs[t] * (SCALE as int) / (kk as int),
        decreases balances.len() - i,
    {
        let b = balances[i];
        if b > MAX_PRESCALE {
            proof {
                assert(0 <= (i as int) < bs.len() && bs[i as int] > MAX_PRESCALE as int);
            }
            return Err(AmmError::Overflow);
        }
        proof {
            lemma_mul_le_from_div(b as int, SCALE as int, u128::MAX as int);
        }
        exps.push(b * SCALE / kk);
        i = i + 1;
    }
    proof {
        assert(exps@.map_values(|x: u128| x as int) =~= scaled_exponents(bs, kk as int));
    }
    let l = if stable {
        log_sum_exp_stable(&exps)
    } else {
        log_sum_exp(&exps)
    };
    let lv = match l {
        None => {
            return Err(AmmError::Overflow);
        },
        Some(v) => v,
    };
    match mul_fix(kk, lv) {
        None => Err(AmmError::Overflow),
        Some(c) => Ok(c),
    }
}

/// The cost potential with the literal log-sum-exp, matching the textbook
/// formula: very large scaled reserves overflow and are reported as such.
pub fn cost(fee: u128, balances: &Vec<u128>) -> (r: Result<u128, AmmError>)
    ensures
        res_int(r) == cost_spec(fee as int, balances@.map_values(|x: u128| x as int), false),
        (r == Err::<u128, AmmError>(AmmError::EmptyBalances)) <==> balances@.len() == 0,
        balances@.len() > 0 ==> ((r == Err::<u128, AmmError>(AmmError::ZeroFee)) <==> fee == 0),
        balances@.len() > 0 && fee != 0 ==> ((r == Err::<u128, AmmError>(AmmError::ZeroSum))
            <==> sum_seq(balances@.map_values(|x: u128| x as int)) == 0),
        r is Ok ==> balances@.len() > 0 && fee > 0 && sum_seq(
            balances@.map_values(|x: u128| x as int),
        ) > 0,
{
    proof {
        let bs = balances@.map_values(|x: u128| x as int);
        assert(forall|j: int| 0 <= j < bs.len() ==> bs[j] >= 0);
        lemma_sum_nonneg(bs);
    }
    cost_with(fee, balances, false)
}

/// The cost potential with the stabilized log-sum-exp, for callers that need
/// it defined on reserves the literal form cannot represent.
pub fn cost_stable(fee: u128, balances: &Vec<u128>) -> (r: Result<u128, AmmError>)
    ensures
        res_int(r) == cost_spec(fee as int, balances@.map_values(|x: u128| x as int), true),
        (r == Err::<u128, AmmError>(AmmError::EmptyBalances)) <==> balances@.len() == 0,
        balances@.len() > 0 ==> ((r == Err::<u128, AmmError>(AmmError::ZeroFee)) <==> fee == 0),
        balances@.len() > 0 && fee != 0 ==> ((r == Err::<u128, AmmError>(AmmError::ZeroSum))
            <==> sum_seq(balances@.map_values(|x: u128| x as int)) == 0),
{
    cost_with(fee, balances, true)
}

} // verus!
