//! Log-sum-exp: the logarithm of the sum of exponentials of a sequence.
//!
//! Two entry points are offered. `log_sum_exp` is the literal form: it
//! exponentiates each argument directly and reports `None` where a term or
//! the sum leaves the representable range, mirroring the floating-point
//! overflow to infinity of the textbook formula. `log_sum_exp_stable`
//! subtracts the maximum argument first, so every exponential lies in
//! `(0, 1]`; it is defined for arbitrarily large arguments.

use vstd::prelude::*;
use crate::exp::{exp_fixed, exp_neg, exp_neg_fixed, exp_opt, lemma_exp_neg_bounds, lemma_exp_opt_lower};
use crate::fixed::{opt_int, SCALE};
use crate::ln::{ln_fixed, ln_spec};
use vstd::arithmetic::mul::lemma_mul_inequality;

verus! {

/// Sum of the exponentials of a sequence, `None` once any term or a partial
/// sum leaves the `u128` range.
pub open spec fn sum_exp_opt(es: Seq<int>) -> Option<int>
    decreases es.len(),
{
    if es.len() == 0 {
        Some(0)
    } else {
        match sum_exp_opt(es.drop_last()) {
            None => None,
            Some(s) => match exp_opt(es.last()) {
                None => None,
                Some(v) => if s + v > u128::MAX as int {
                    None
                } else {
                    Some(s + v)
                },
            },
        }
    }
}

/// The literal log-sum-exp; `None` on an empty sequence or overflow.
pub open spec fn lse_opt(es: Seq<int>) -> Option<int> {
    if es.len() == 0 {
        None
    } else {
        match sum_exp_opt(es) {
            None => None,
            Some(s) => Some(ln_spec(s)),
        }
    }
}

/// An overflowed prefix makes the whole sum overflow.
pub proof fn lemma_sum_exp_none_grow(es: Seq<int>, j: int)
    requires
        0 <= j <= es.len(),
        sum_exp_opt(es.take(j)) is None,
    ensures
        sum_exp_opt(es) is None,
    decreases es.len() - j,
{
    if j == es.len() {
        assert(es.take(j) =~= es);
    } else {
        assert(es.take(j + 1).drop_last() =~= es.take(j));
        lemma_sum_exp_none_grow(es, j + 1);
    }
}

/// A defined sum of exponentials is non-negative, and at least one whole
/// unit when the sequence of non-negative arguments is non-empty.
pub proof fn lemma_sum_exp_lower(es: Seq<int>, s: int)
    requires
        sum_exp_opt(es) == Some(s),
        forall|i: int| 0 <= i < es.len() ==> es[i] >= 0,
    ensures
        s >= 0,
        es.len() >= 1 ==> s >= SCALE,
    decreases es.len(),
{
    if es.len() > 0 {
        match sum_exp_opt(es.drop_last()) {
            None => {
                assert(false);
            },
            Some(s0) => {
                lemma_sum_exp_lower(es.drop_last(), s0);
                match exp_opt(es.last()) {
                    None => {
                        assert(false);
                    },
                    Some(v) => {
                        lemma_exp_opt_lower(es.last(), v);
                    },
                }
            },
        }
    }
}

/// The literal log-sum-exp of fixed-point arguments.
pub fn log_sum_exp(exponents: &Vec<u128>) -> (r: Option<u128>)
    ensures
        opt_int(r) == lse_opt(exponents@.map_values(|x: u128| x as int)),
{
    let ghost es = exponents@.map_values(|x: u128| x as int);
    if exponents.len() == 0 {
        return None;
    }
    let mut acc: u128 = 0;
    let mut i: usize = 0;
    while i < exponents.len()
        invariant
            0 <= i <= exponents.len(),
            es == exponents@.map_values(|x: u128| x as int),
            es.len() == exponents.len(),
            sum_exp_opt(es.take(i as int)) == Some(acc as int),
        decreases exponents.len() - i,
    {
        proof {
            assert(es.take(i as int + 1).drop_last() =~= es.take(i as int));
            assert(es.take(i as int + 1).last() == es[i as int]);
        }
        match exp_fixed(exponents[i]) {
            None => {
                proof {
                    lemma_sum_exp_none_grow(es, i as int + 1);
                }
                return None;
            },
            Some(v) => {
                if acc > u128::MAX - v {
                    proof {
                        lemma_sum_exp_none_grow(es, i as int + 1);
                    }
                    return None;
                }
                acc = acc + v;
            },
        }
        i = i + 1;
    }
    proof {
        assert(es.take(es.len() as int) =~= es);
        assert(forall|j: int| 0 <= j < es.len() ==> es[j] >= 0);
        lemma_sum_exp_lower(es, acc as int);
    }
    Some(ln_fixed(acc))
}

/// The greatest element of a sequence (zero for an empty one).
pub open spec fn seq_max(es: Seq<int>) -> int
    decreases es.len(),
{
    if es.len() == 0 {
        0
    } else if es.len() == 1 {
        es[0]
    } else {
        let m = seq_max(es.drop_last());
        if es.last() > m {
            es.last()
        } else {
            m
        }
    }
}

/// No element exceeds the maximum.
proof fn lemma_seq_max_ge(es: Seq<int>, j: int)
    requires
        0 <= j < es.len(),
    ensures
        es[j] <= seq_max(es),
    decreases es.len(),
{
    if es.len() > 1 && j < es.len() - 1 {
        lemma_seq_max_ge(es.drop_last(), j);
    }
}

/// The maximum of a non-empty sequence is one of its elements.
proof fn lemma_seq_max_mem(es: Seq<int>)
    requires
        es.len() >= 1,
    ensures
        exists|i: int| 0 <= i < es.len() && es[i] == seq_max(es),
    decreases es.len(),
{
    if es.len() == 1 {
        assert(es[0] == seq_max(es));
    } else {
        lemma_seq_max_mem(es.drop_last());
        let m = seq_max(es.drop_last());
        if es.last() > m {
            assert(es[es.len() - 1] == seq_max(es));
        } else {
            let i = choose|i: int| 0 <= i < es.drop_last().len() && es.drop_last()[i] == m;
            assert(es[i] == seq_max(es));
        }
    }
}

/// Sum of the exponentials re-centred at `m`: each term is `exp(e - m)`.
pub open spec fn sum_exp_neg(es: Seq<int>, m: int) -> int
    decreases es.len(),
{
    if es.len() == 0 {
        0
    } else {
        sum_exp_neg(es.drop_last(), m) + exp_neg(m - es.last())
    }
}

/// The re-centred sum is non-negative and at most one unit per element.
proof fn lemma_sum_exp_neg_bounds(es: Seq<int>, m: int)
    requires
        forall|i: int| 0 <= i < es.len() ==> es[i] <= m,
    ensures
        0 <= sum_exp_neg(es, m) <= es.len() * (SCALE as int),
    decreases es.len(),
{
    if es.len() > 0 {
        lemma_sum_exp_neg_bounds(es.drop_last(), m);
        lemma_exp_neg_bounds(m - es.last());
        assert((es.len() - 1) * (SCALE as int) + SCALE as int == es.len() * (SCALE as int))
            by (nonlinear_arith);
    }
}

/// With the maximum among the elements, the re-centred sum is at least one
/// whole unit: the maximal element contributes `exp(0) == 1`.
proof fn lemma_sum_exp_neg_lower(es: Seq<int>, m: int)
    requires
        forall|i: int| 0 <= i < es.len() ==> es[i] <= m,
        exists|i: int| 0 <= i < es.len() && es[i] == m,
    ensures
        sum_exp_neg(es, m) >= SCALE,
    decreases es.len(),
{
    lemma_exp_neg_zero();
    lemma_sum_exp_neg_bounds(es.drop_last(), m);
    if es.last() == m {
        lemma_exp_neg_bounds(m - es.last());
    } else {
        let i = choose|i: int| 0 <= i < es.len() && es[i] == m;
        assert(es.drop_last()[i] == m);
        lemma_sum_exp_neg_lower(es.drop_last(), m);
        lemma_exp_neg_bounds(m - es.last());
    }
}

/// `exp(0)` is exactly one whole unit, so `exp_neg(0)` is too.
proof fn lemma_exp_neg_zero()
    ensures
        exp_neg(0) == SCALE,
{
    lemma_exp_frac_zero((crate::exp::EXP_TERMS - 1) as nat);
    assert(crate::exp::exp_frac(0) == SCALE as int);
    vstd::arithmetic::div_mod::lemma_div_multiples_vanish(SCALE as int, SCALE as int);
    assert(exp_opt(0) == Some(SCALE as int));
}

/// Every Taylor term after the first vanishes at argument zero.
proof fn lemma_exp_frac_zero(k: nat)
    ensures
        crate::exp::exp_frac_sum(0, k) == SCALE,
    decreases k,
{
    if k > 0 {
        lemma_exp_frac_zero((k - 1) as nat);
    }
}

/// The stabilized log-sum-exp; `None` exactly on an empty sequence or where
/// the result itself exceeds the fixed-point range.
pub open spec fn lse_stable_opt(es: Seq<int>) -> Option<int> {
    if es.len() == 0 {
        None
    } else {
        let m = seq_max(es);
        let l = ln_spec(sum_exp_neg(es, m));
        if m + l > u128::MAX as int {
            None
        } else {
            Some(m + l)
        }
    }
}

/// The stabilized log-sum-exp of fixed-point arguments.
pub fn log_sum_exp_stable(exponents: &Vec<u128>) -> (r: Option<u128>)
    ensures
        opt_int(r) == lse_stable_opt(exponents@.map_values(|x: u128| x as int)),
{
    let ghost es = exponents@.map_values(|x: u128| x as int);
    if exponents.len() == 0 {
        return None;
    }
    let mut mx: u128 = exponents[0];
    let mut i: usize = 1;
    proof {
        assert(es.take(1) =~= seq![es[0]]);
    }
    while i < exponents.len()
        invariant
            1 <= i <= exponents.len(),
            es == exponents@.map_values(|x: u128| x as int),
            es.len() == exponents.len(),
            seq_max(es.take(i as int)) == mx as int,
        decreases exponents.len() - i,
    {
        proof {
            assert(es.take(i as int + 1).drop_last() =~= es.take(i as int));
            assert(es.take(i as int + 1).last() == es[i as int]);
        }
        if exponents[i] > mx {
            mx = exponents[i];
        }
        i = i + 1;
    }
    proof {
        assert(es.take(es.len() as int) =~= es);
        assert forall|j: int| 0 <= j < es.len() implies es[j] <= mx as int by {
            lemma_seq_max_ge(es, j);
        }
    }
    let mut acc: u128 = 0;
    let mut i: usize = 0;
    while i < exponents.len()
        invariant
            0 <= i <= exponents.len(),
            es == exponents@.map_values(|x: u128| x as int),
            es.len() == exponents.len(),
            forall|j: int| 0 <= j < es.len() ==> es[j] <= mx as int,
            sum_exp_neg(es.take(i as int), mx as int) == acc as int,
            acc <= i * SCALE,
        decreases exponents.len() - i,
    {
        proof {
            assert(es.take(i as int + 1).drop_last() =~= es.take(i as int));
            assert(es.take(i as int + 1).last() == es[i as int]);
            assert((i as int) * (SCALE as int) + SCALE as int == (i as int + 1) * (SCALE as int))
                by (nonlinear_arith);
            lemma_mul_inequality(i as int, 18446744073709551615, SCALE as int);
        }
        let v = exp_neg_fixed(mx - exponents[i]);
        acc = acc + v;
        i = i + 1;
    }
    proof {
        assert(es.take(es.len() as int) =~= es);
        lemma_seq_max_mem(es);
        lemma_sum_exp_neg_lower(es, mx as int);
    }
    let l = ln_fixed(acc);
    if mx > u128::MAX - l {
        return None;
    }
    Some(mx + l)
}

} // verus!
