//! The marginal price of one asset, in two formulations.
//!
//! Both express the price as `cost / sum` plus a correction built from the
//! exponentials of the normalized reserves: the fused form `price` evaluates
//! the correction as one quotient of a difference, the decomposed form
//! `price2` as the difference `price_first_quotient - price_second_quotient`
//! of two quotients. The two are algebraically identical; with truncating
//! fixed-point division they can differ by at most one unit in the last
//! place, which `lemma_price_formulations_agree` proves.
//!
//! The reserve in question `q` need not be one of the stored balances: the
//! formula is evaluated at that reserve level, whatever it is.

use vstd::prelude::*;
use vstd::arithmetic::div_mod::{
    lemma_div_multiples_vanish_fancy, lemma_div_pos_is_pos, lemma_fundamental_div_mod,
};
use vstd::arithmetic::mul::lemma_mul_nonnegative;
use crate::cost::{cost_spec, lemma_sum_take_le, res_int, scaled_exponents, sum_seq};
use crate::exp::{exp_fixed, exp_opt, lemma_exp_opt_lower};
use crate::fixed::{
    div_fix, div_fix_spec, lemma_mul_le_from_div, mul_fix, mul_fix_spec, MAX_PRESCALE, SCALE,
    SIGNED_MAX_MAG,
};
use crate::ln::{ln_fixed, ln_spec};
use crate::lse::{lemma_sum_exp_lower, lemma_sum_exp_none_grow, sum_exp_opt};
use crate::AmmError;

verus! {

/// Mathematical reading of a signed fixed-point result.
pub open spec fn res_int_signed(r: Result<i128, AmmError>) -> Result<int, AmmError> {
    match r {
        Ok(v) => Ok(v as int),
        Err(e) => Err(e),
    }
}

/// The exponential-weighted reserve sum `sum(balances[i] * exp(balances[i] / k))`,
/// `None` once any term or partial sum leaves the range.
pub open spec fn wsum_opt(bals: Seq<int>, k: int) -> Option<int>
    decreases bals.len(),
{
    if bals.len() == 0 {
        Some(0)
    } else {
        match wsum_opt(bals.drop_last(), k) {
            None => None,
            Some(s) => match exp_opt(bals.last() * (SCALE as int) / k) {
                None => None,
                Some(v) => match mul_fix_spec(bals.last(), v) {
                    None => None,
                    Some(t) => if s + t > u128::MAX as int {
                        None
                    } else {
                        Some(s + t)
                    },
                },
            },
        }
    }
}

/// An overflowed prefix keeps the weighted sum overflowed.
proof fn lemma_wsum_none_grow(bals: Seq<int>, k: int, j: int)
    requires
        0 <= j <= bals.len(),
        wsum_opt(bals.take(j), k) is None,
    ensures
        wsum_opt(bals, k) is None,
    decreases bals.len() - j,
{
    if j == bals.len() {
        assert(bals.take(j) =~= bals);
    } else {
        assert(bals.take(j + 1).drop_last() =~= bals.take(j));
        lemma_wsum_none_grow(bals, k, j + 1);
    }
}

/// A defined weighted sum of non-negative balances is non-negative.
proof fn lemma_wsum_nonneg(bals: Seq<int>, k: int, s: int)
    requires
        wsum_opt(bals, k) == Some(s),
        forall|i: int| 0 <= i < bals.len() ==> bals[i] >= 0,
        k > 0,
    ensures
        s >= 0,
    decreases bals.len(),
{
    if bals.len() > 0 {
        match wsum_opt(bals.drop_last(), k) {
            None => {
                assert(false);
            },
            Some(s0) => {
                lemma_wsum_nonneg(bals.drop_last(), k, s0);
                match exp_opt(bals.last() * (SCALE as int) / k) {
                    None => {
                        assert(false);
                    },
                    Some(v) => {
                        lemma_mul_nonnegative(bals.last(), SCALE as int);
                        lemma_div_pos_is_pos(bals.last() * (SCALE as int), k);
                        lemma_exp_opt_lower(bals.last() * (SCALE as int) / k, v);
                        lemma_mul_nonnegative(bals.last(), v);
                        lemma_div_pos_is_pos(bals.last() * v, SCALE as int);
                    },
                }
            },
        }
    }
}

/// Screening and shared quantities of every price formulation: after the same
/// rejects as the cost function, the reserve sum `s`, the liquidity factor
/// `k`, the sum `sv` of the reserve exponentials, and the weighted sum `bw`.
pub open spec fn parts_spec(fee: int, bals: Seq<int>) -> Result<(int, int, int, int), AmmError> {
    if bals.len() == 0 {
        Err(AmmError::EmptyBalances)
    } else if fee == 0 {
        Err(AmmError::ZeroFee)
    } else if sum_seq(bals) > u128::MAX as int {
        Err(AmmError::Overflow)
    } else if sum_seq(bals) == 0 {
        Err(AmmError::ZeroSum)
    } else {
        match mul_fix_spec(fee, sum_seq(bals)) {
            None => Err(AmmError::Overflow),
            Some(k) => if k == 0 {
                Err(AmmError::Overflow)
            } else if exists|i: int| 0 <= i < bals.len() && bals[i] > MAX_PRESCALE as int {
                Err(AmmError::Overflow)
            } else {
                match sum_exp_opt(scaled_exponents(bals, k)) {
                    None => Err(AmmError::Overflow),
                    Some(sv) => match wsum_opt(bals, k) {
                        None => Err(AmmError::Overflow),
                        Some(bw) => Ok((sum_seq(bals), k, sv, bw)),
                    },
                }
            },
        }
    }
}

/// The fused marginal price `c / s + (eq * s - bw) / (sv * s)`, the correction
/// evaluated as one signed quotient.
pub open spec fn price_spec(fee: int, bals: Seq<int>, q: int) -> Result<int, AmmError> {
    match parts_spec(fee, bals) {
        Err(e) => Err(e),
        Ok((s, k, sv, bw)) => {
            if q > MAX_PRESCALE as int {
                Err(AmmError::Overflow)
            } else {
                match exp_opt(q * (SCALE as int) / k) {
                    None => Err(AmmError::Overflow),
                    Some(eq) => match mul_fix_spec(k, ln_spec(sv)) {
                        None => Err(AmmError::Overflow),
                        Some(c) => match mul_fix_spec(eq, s) {
                            None => Err(AmmError::Overflow),
                            Some(a) => match mul_fix_spec(sv, s) {
                                None => Err(AmmError::Overflow),
                                Some(d) => match div_fix_spec(c, s) {
                                    None => Err(AmmError::Overflow),
                                    Some(left) => {
                                        let corr = if a >= bw {
                                            div_fix_spec(a - bw, d)
                                        } else {
                                            div_fix_spec(bw - a, d)
                                        };
                                        match corr {
                                            None => Err(AmmError::Overflow),
                                            Some(cq) => {
                                                let p = if a >= bw {
                                                    left + cq
                                                } else {
                                                    left - cq
                                                };
                                                if p > SIGNED_MAX_MAG as int || p < -(
                                                SIGNED_MAX_MAG as int) {
                                                    Err(AmmError::Overflow)
                                                } else {
                                                    Ok(p)
                                                }
                                            },
                                        }
                                    },
                                },
                            },
                        },
                    },
                }
            }
        },
    }
}

/// The first quotient of the decomposed price: `eq * s / (sv * s)`.
pub open spec fn first_quotient_spec(fee: int, bals: Seq<int>, q: int) -> Result<int, AmmError> {
    match parts_spec(fee, bals) {
        Err(e) => Err(e),
        Ok((s, k, sv, bw)) => {
            if q > MAX_PRESCALE as int {
                Err(AmmError::Overflow)
            } else {
                match exp_opt(q * (SCALE as int) / k) {
                    None => Err(AmmError::Overflow),
                    Some(eq) => match mul_fix_spec(eq, s) {
                        None => Err(AmmError::Overflow),
                        Some(a) => match mul_fix_spec(sv, s) {
                            None => Err(AmmError::Overflow),
                            Some(d) => match div_fix_spec(a, d) {
                                None => Err(AmmError::Overflow),
                                Some(f) => Ok(f),
                            },
                        },
                    },
                }
            }
        },
    }
}

/// The second quotient of the decomposed price: `bw / (sv * s)`. It does not
/// depend on the reserve in question.
pub open spec fn second_quotient_spec(fee: int, bals: Seq<int>) -> Result<int, AmmError> {
    match parts_spec(fee, bals) {
        Err(e) => Err(e),
        Ok((s, k, sv, bw)) => {
            match mul_fix_spec(sv, s) {
                None => Err(AmmError::Overflow),
                Some(d) => match div_fix_spec(bw, d) {
                    None => Err(AmmError::Overflow),
                    Some(sec) => Ok(sec),
                },
            }
        },
    }
}

/// The decomposed marginal price `cost / s + first_quotient - second_quotient`.
pub open spec fn price2_spec(fee: int, bals: Seq<int>, q: int) -> Result<int, AmmError> {
    match cost_spec(fee, bals, false) {
        Err(e) => Err(e),
        Ok(c) => match first_quotient_spec(fee, bals, q) {
            Err(e) => Err(e),
            Ok(f) => match second_quotient_spec(fee, bals) {
                Err(e) => Err(e),
                Ok(sec) => match div_fix_spec(c, sum_seq(bals)) {
                    None => Err(AmmError::Overflow),
                    Some(left) => {
                        let p = left + f - sec;
                        if p > SIGNED_MAX_MAG as int || p < -(SIGNED_MAX_MAG as int) {
                            Err(AmmError::Overflow)
                        } else {
                            Ok(p)
                        }
                    },
                },
            },
        },
    }
}

/// Executable screening shared by the price formulations.
#[verifier::loop_isolation(false)]
fn price_parts(fee: u128, balances: &Vec<u128>) -> (r: Result<(u128, u128, u128, u128), AmmError>)
    ensures
        (match r {
            Ok(t) => {
                let bs = balances@.map_values(|x: u128| x as int);
                &&& parts_spec(fee as int, bs) == Ok::<(int, int, int, int), AmmError>(
                    (t.0 as int, t.1 as int, t.2 as int, t.3 as int),
                )
                &&& t.1 > 0
                &&& t.2 >= SCALE
            },
            Err(e) => parts_spec(
                fee as int,
                balances@.map_values(|x: u128| x as int),
            ) == Err::<(int, int, int, int), AmmError>(e),
        }),
{
    let ghost bs = balances@.map_values(|x: u128| x as int);
    proof {
        assert(forall|j: int| 0 <= j < bs.len() ==> bs[j] >= 0);
    }
    if balances.len() == 0 {
        return Err(AmmError::EmptyBalances);
    }
    if fee == 0 {
        return Err(AmmError::ZeroFee);
    }
    let mut sum: u128 = 0;
    let mut i: usize = 0;
    while i < balances.len()
        invariant
            0 <= i <= balances.len(),
            sum_seq(bs.take(i as int)) == sum as int,
        decreases balances.len() - i,
    {
        proof {
            assert(bs.take(i as int + 1).drop_last() =~= bs.take(i as int));
            assert(bs.take(i as int + 1).last() == bs[i as int]);
        }
        let b = balances[i];
        if sum > u128::MAX - b {
            proof {
                lemma_sum_take_le(bs, i as int + 1);
            }
            return Err(AmmError::Overflow);
        }
        sum = sum + b;
        i = i + 1;
    }
    proof {
        assert(bs.take(bs.len() as int) =~= bs);
    }
    if sum == 0 {
        return Err(AmmError::ZeroSum);
    }
    let kk = match mul_fix(fee, sum) {
        None => {
            return Err(AmmError::Overflow);
        },
        Some(k) => k,
    };
    if kk == 0 {
        return Err(AmmError::Overflow);
    }
    let ghost scaled = scaled_exponents(bs, kk as int);
    let mut sv: u128 = 0;
    let mut bw: u128 = 0;
    let mut i: usize = 0;
    while i < balances.len()
        invariant
            0 <= i <= balances.len(),
            sum_exp_opt(scaled.take(i as int)) == Some(sv as int),
            wsum_opt(bs.take(i as int), kk as int) == Some(bw as int),
            forall|t: int| 0 <= t < i ==> bs[t] <= MAX_PRESCALE as int,
        decreases balances.len() - i,
    {
        proof {
            assert(scaled.take(i as int + 1).drop_last() =~= scaled.take(i as int));
            assert(scaled.take(i as int + 1).last() == scaled[i as int]);
            assert(bs.take(i as int + 1).drop_last() =~= bs.take(i as int));
            assert(bs.take(i as int + 1).last() == bs[i as int]);
        }
        let b = balances[i];
        if b > MAX_PRESCALE {
            proof {
                assert(0 <= (i as int) < bs.len() && bs[i as int] > MAX_PRESCALE as int);
            }
            return Err(AmmError::Overflow);
        }
        proof {
            lemma_mul_le_from_div(b as int, SCALE as int, u128::MAX as int);
        }
        let e = b * SCALE / kk;
        let v = match exp_fixed(e) {
            None => {
                proof {
                    lemma_sum_exp_none_grow(scaled, i as int + 1);
                }
                return Err(AmmError::Overflow);
            },
            Some(v) => v,
        };
        if sv > u128::MAX - v {
            proof {
                lemma_sum_exp_none_grow(scaled, i as int + 1);
            }
            return Err(AmmError::Overflow);
        }
        sv = sv + v;
        let t = match mul_fix(b, v) {
            None => {
                proof {
                    lemma_wsum_none_grow(bs, kk as int, i as int + 1);
                }
                return Err(AmmError::Overflow);
            },
            Some(t) => t,
        };
        if bw > u128::MAX - t {
            proof {
                lemma_wsum_none_grow(bs, kk as int, i as int + 1);
            }
            return Err(AmmError::Overflow);
        }
        bw = bw + t;
        i = i + 1;
    }
    proof {
        assert(scaled.take(scaled.len() as int) =~= scaled);
        assert(bs.take(bs.len() as int) =~= bs);
        assert forall|j: int| 0 <= j < scaled.len() implies scaled[j] >= 0 by {
            lemma_mul_nonnegative(bs[j], SCALE as int);
            lemma_div_pos_is_pos(bs[j] * (SCALE as int), kk as int);
        }
        lemma_sum_exp_lower(scaled, sv as int);
    }
    Ok((sum, kk, sv, bw))
}

/// The fused marginal price of the asset whose reserve is `reserve_in_question`.
pub fn price(fee: u128, balances: &Vec<u128>, reserve_in_question: u128) -> (r: Result<
    i128,
    AmmError,
>)
    ensures
        res_int_signed(r) == price_spec(
            fee as int,
            balances@.map_values(|x: u128| x as int),
            reserve_in_question as int,
        ),
        (r == Err::<i128, AmmError>(AmmError::EmptyBalances)) <==> balances@.len() == 0,
        balances@.len() > 0 ==> ((r == Err::<i128, AmmError>(AmmError::ZeroFee)) <==> fee == 0),
        balances@.len() > 0 && fee != 0 ==> ((r == Err::<i128, AmmError>(AmmError::ZeroSum))
            <==> sum_seq(balances@.map_values(|x: u128| x as int)) == 0),
{
    let (sum, kk, sv, bw) = match price_parts(fee, balances) {
        Err(e) => {
            return Err(e);
        },
        Ok(t) => t,
    };
    if reserve_in_question > MAX_PRESCALE {
        return Err(AmmError::Overflow);
    }
    proof {
        lemma_mul_le_from_div(reserve_in_question as int, SCALE as int, u128::MAX as int);
    }
    let eq = match exp_fixed(reserve_in_question * SCALE / kk) {
        None => {
            return Err(AmmError::Overflow);
        },
        Some(v) => v,
    };
    let l = ln_fixed(sv);
    let c = match mul_fix(kk, l) {
        None => {
            return Err(AmmError::Overflow);
        },
        Some(v) => v,
    };
    let a = match mul_fix(eq, sum) {
        None => {
            return Err(AmmError::Overflow);
        },
        Some(v) => v,
    };
    let d = match mul_fix(sv, sum) {
        None => {
            return Err(AmmError::Overflow);
        },
        Some(v) => v,
    };
    let left = match div_fix(c, sum) {
        None => {
            return Err(AmmError::Overflow);
        },
        Some(v) => v,
    };
    if a >= bw {
        let cq = match div_fix(a - bw, d) {
            None => {
                return Err(AmmError::Overflow);
            },
            Some(v) => v,
        };
        if cq > SIGNED_MAX_MAG || left > SIGNED_MAX_MAG - cq {
            Err(AmmError::Overflow)
        } else {
            Ok((left + cq) as i128)
        }
    } else {
        let cq = match div_fix(bw - a, d) {
            None => {
                return Err(AmmError::Overflow);
            },
            Some(v) => v,
        };
        if cq <= left {
            if left - cq > SIGNED_MAX_MAG {
                Err(AmmError::Overflow)
            } else {
                Ok((left - cq) as i128)
            }
        } else {
            let mag = cq - left;
            if mag > SIGNED_MAX_MAG {
                Err(AmmError::Overflow)
            } else {
                Ok(-(mag as i128))
            }
        }
    }
}

/// The first quotient of the decomposed price.
pub fn price_first_quotient(fee: u128, balances: &Vec<u128>, reserve_in_question: u128) -> (r:
    Result<u128, AmmError>)
    ensures
        res_int(r) == first_quotient_spec(
            fee as int,
            balances@.map_values(|x: u128| x as int),
            reserve_in_question as int,
        ),
{
    let (sum, kk, sv, _bw) = match price_parts(fee, balances) {
        Err(e) => {
            return Err(e);
        },
        Ok(t) => t,
    };
    if reserve_in_question > MAX_PRESCALE {
        return Err(AmmError::Overflow);
    }
    proof {
        lemma_mul_le_from_div(reserve_in_question as int, SCALE as int, u128::MAX as int);
    }
    let eq = match exp_fixed(reserve_in_question * SCALE / kk) {
        None => {
            return Err(AmmError::Overflow);
        },
        Some(v) => v,
    };
    let a = match mul_fix(eq, sum) {
        None => {
            return Err(AmmError::Overflow);
        },
        Some(v) => v,
    };
    let d = match mul_fix(sv, sum) {
        None => {
            return Err(AmmError::Overflow);
        },
        Some(v) => v,
    };
    match div_fix(a, d) {
        None => Err(AmmError::Overflow),
        Some(f) => Ok(f),
    }
}

/// The second quotient of the decomposed price. The reserve in question does
/// not enter the formula; the parameter is kept so that the three price
/// routines share one shape.
pub fn price_second_quotient(fee: u128, balances: &Vec<u128>, _reserve_in_question: u128) -> (r:
    Result<u128, AmmError>)
    ensures
        res_int(r) == second_quotient_spec(fee as int, balances@.map_values(|x: u128| x as int)),
{
    let (sum, _kk, sv, bw) = match price_parts(fee, balances) {
        Err(e) => {
            return Err(e);
        },
        Ok(t) => t,
    };
    let d = match mul_fix(sv, sum) {
        None => {
            return Err(AmmError::Overflow);
        },
        Some(v) => v,
    };
    match div_fix(bw, d) {
        None => Err(AmmError::Overflow),
        Some(sec) => Ok(sec),
    }
}

/// The decomposed marginal price: cost over sum, plus the first quotient,
/// minus the second quotient.
pub fn price2(fee: u128, balances: &Vec<u128>, reserve_in_question: u128) -> (r: Result<
    i128,
    AmmError,
>)
    ensures
        res_int_signed(r) == price2_spec(
            fee as int,
            balances@.map_values(|x: u128| x as int),
            reserve_in_question as int,
        ),
{
    let c = match crate::cost::cost(fee, balances) {
        Err(e) => {
            return Err(e);
        },
        Ok(v) => v,
    };
    let f = match price_first_quotient(fee, balances, reserve_in_question) {
        Err(e) => {
            return Err(e);
        },
        Ok(v) => v,
    };
    let sec = match price_second_quotient(fee, balances, reserve_in_question) {
        Err(e) => {
            return Err(e);
        },
        Ok(v) => v,
    };
    let (sum, _kk, _sv, _bw) = match price_parts(fee, balances) {
        Err(e) => {
            // unreachable: the quotients above are defined, so the shared
            // screening succeeded.
            proof {
                assert(false);
            }
            return Err(e);
        },
        Ok(t) => t,
    };
    let left = match div_fix(c, sum) {
        None => {
            return Err(AmmError::Overflow);
        },
        Some(v) => v,
    };
    if f >= sec {
        let d1 = f - sec;
        if d1 > u128::MAX - left {
            return Err(AmmError::Overflow);
        }
        let p = left + d1;
        if p > SIGNED_MAX_MAG {
            Err(AmmError::Overflow)
        } else {
            Ok(p as i128)
        }
    } else {
        let d2 = sec - f;
        if left >= d2 {
            let p = left - d2;
            if p > SIGNED_MAX_MAG {
                Err(AmmError::Overflow)
            } else {
                Ok(p as i128)
            }
        } else {
            let mag = d2 - left;
            if mag > SIGNED_MAX_MAG {
                Err(AmmError::Overflow)
            } else {
                Ok(-(mag as i128))
            }
        }
    }
}

/// For non-negative `x`, `y` and positive `d`, the quotient of the difference
/// `(x - y) / d`, with the division truncating toward zero on either side of
/// zero, lies within one of the difference of the quotients `x/d - y/d`.
proof fn lemma_div_difference(x: int, y: int, d: int)
    requires
        0 <= x,
        0 <= y,
        0 < d,
    ensures
        x >= y ==> x / d - y / d - 1 <= (x - y) / d <= x / d - y / d,
        x < y ==> x / d - y / d <= -((y - x) / d) <= x / d - y / d + 1,
{
    lemma_fundamental_div_mod(x, d);
    lemma_fundamental_div_mod(y, d);
    let qx = x / d;
    let qy = y / d;
    let rx = x % d;
    let ry = y % d;
    if x >= y {
        if rx >= ry {
            assert(x - y == d * (qx - qy) + (rx - ry)) by (nonlinear_arith)
                requires
                    x == d * qx + rx,
                    y == d * qy + ry,
            ;
            lemma_div_multiples_vanish_fancy(qx - qy, rx - ry, d);
        } else {
            assert(x - y == d * (qx - qy - 1) + (rx - ry + d)) by (nonlinear_arith)
                requires
                    x == d * qx + rx,
                    y == d * qy + ry,
            ;
            lemma_div_multiples_vanish_fancy(qx - qy - 1, rx - ry + d, d);
        }
    } else {
        if ry >= rx {
            assert(y - x == d * (qy - qx) + (ry - rx)) by (nonlinear_arith)
                requires
                    x == d * qx + rx,
                    y == d * qy + ry,
            ;
            lemma_div_multiples_vanish_fancy(qy - qx, ry - rx, d);
        } else {
            assert(y - x == d * (qy - qx - 1) + (ry - rx + d)) by (nonlinear_arith)
                requires
                    x == d * qx + rx,
                    y == d * qy + ry,
            ;
            lemma_div_multiples_vanish_fancy(qy - qx - 1, ry - rx + d, d);
        }
    }
}

/// Cross-formulation agreement: wherever both the fused and the decomposed
/// marginal price are defined on the same non-negative inputs, they differ by
/// at most one fixed-point unit in the last place.
pub proof fn lemma_price_formulations_agree(fee: int, bals: Seq<int>, q: int, p1: int, p2: int)
    requires
        0 <= fee,
        0 <= q,
        forall|i: int| 0 <= i < bals.len() ==> bals[i] >= 0,
        price_spec(fee, bals, q) == Ok::<int, AmmError>(p1),
        price2_spec(fee, bals, q) == Ok::<int, AmmError>(p2),
    ensures
        p1 - 1 <= p2 <= p1 + 1,
{
    let parts = parts_spec(fee, bals);
    match parts {
        Err(e) => {
            assert(false);
        },
        Ok((s, k, sv, bw)) => {
            let eq = match exp_opt(q * (SCALE as int) / k) {
                None => 0int,
                Some(v) => v,
            };
            let aa = match mul_fix_spec(eq, s) {
                None => 0int,
                Some(v) => v,
            };
            let d = match mul_fix_spec(sv, s) {
                None => 0int,
                Some(v) => v,
            };
            let x = aa * (SCALE as int);
            let y = bw * (SCALE as int);
            assert(d != 0);
            assert(d >= 0) by {
                crate::cost::lemma_sum_nonneg(bals);
                lemma_sum_exp_lower(scaled_exponents(bals, k), sv);
                assert(forall|j: int|
                    0 <= j < scaled_exponents(bals, k).len() ==> scaled_exponents(bals, k)[j]
                        >= 0) by {
                    assert forall|j: int| 0 <= j < scaled_exponents(bals, k).len() implies
                        scaled_exponents(bals, k)[j] >= 0 by {
                        lemma_mul_nonnegative(bals[j], SCALE as int);
                        lemma_div_pos_is_pos(bals[j] * (SCALE as int), k);
                    }
                }
                lemma_mul_nonnegative(sv, s);
                lemma_div_pos_is_pos(sv * s, SCALE as int);
            }
            assert(k > 0) by {
                crate::cost::lemma_sum_nonneg(bals);
                lemma_mul_nonnegative(fee, sum_seq(bals));
                lemma_div_pos_is_pos(fee * sum_seq(bals), SCALE as int);
            }
            assert(bw >= 0) by {
                lemma_wsum_nonneg(bals, k, bw);
            }
            assert(eq >= 0) by {
                lemma_mul_nonnegative(q, SCALE as int);
                lemma_div_pos_is_pos(q * (SCALE as int), k);
                lemma_exp_opt_lower(q * (SCALE as int) / k, eq);
            }
            assert(aa >= 0) by {
                crate::cost::lemma_sum_nonneg(bals);
                lemma_mul_nonnegative(eq, s);
                lemma_div_pos_is_pos(eq * s, SCALE as int);
            }
            assert(x >= 0 && y >= 0) by {
                lemma_mul_nonnegative(aa, SCALE as int);
                lemma_mul_nonnegative(bw, SCALE as int);
            }
            assert((aa - bw) * (SCALE as int) == x - y) by (nonlinear_arith)
                requires
                    x == aa * (SCALE as int),
                    y == bw * (SCALE as int),
            ;
            assert((bw - aa) * (SCALE as int) == y - x) by (nonlinear_arith)
                requires
                    x == aa * (SCALE as int),
                    y == bw * (SCALE as int),
            ;
            assert(aa >= bw ==> x >= y) by (nonlinear_arith)
                requires
                    x == aa * (SCALE as int),
                    y == bw * (SCALE as int),
            ;
            assert(aa < bw ==> x < y) by (nonlinear_arith)
                requires
                    x == aa * (SCALE as int),
                    y == bw * (SCALE as int),
            ;
            lemma_div_difference(x, y, d);
        },
    }
}

} // verus!
