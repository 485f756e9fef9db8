//! Scenario tests of the pricing core on concrete fixed-point values.

use rikiddo::cost::{cost, cost_stable};
use rikiddo::exp::exp_fixed;
use rikiddo::fixed::{isqrt, E_FIXED, LN2_FIXED, SCALE};
use rikiddo::ln::ln_fixed;
use rikiddo::lse::{log_sum_exp, log_sum_exp_stable};
use rikiddo::price::{price, price2, price_first_quotient, price_second_quotient};
use rikiddo::sigmoid::sigmoid_fee;
use rikiddo::AmmError;

fn fx(x: f64) -> u128 {
    (x * 4294967296.0) as u128
}

fn to_f64(v: u128) -> f64 {
    v as f64 / 4294967296.0
}

#[test]
fn cost_known_example() {
    // The scaled reserves have exponent about 50; exp(50) lies beyond the
    // literal form's fixed-point range, so the stabilized variant carries
    // the known example.
    let balances = vec![fx(973.022099); 4];
    let c = cost_stable(fx(0.005), &balances).unwrap();
    let got = to_f64(c);
    assert!((got - 1000.0).abs() < 0.01, "cost was {}", got);
    assert_eq!(cost(fx(0.005), &balances), Err(AmmError::Overflow));
}

#[test]
fn cost_fee_difference() {
    let balances = vec![fx(1000.0), fx(1000.0)];
    let c_high = cost(fx(0.1), &balances).unwrap();
    // fee 0.001 scales the reserves to exponent 500: the literal form
    // overflows, as the floating-point formula overflows to infinity.
    assert_eq!(cost(fx(0.001), &balances), Err(AmmError::Overflow));
    let c_low = cost_stable(fx(0.001), &balances).unwrap();
    assert!(c_high != c_low);
    // closed forms: K * (v/K + ln 2) with K = fee * 2000.
    assert!((to_f64(c_high) - (1000.0 + 200.0 * 2.0f64.ln())).abs() < 0.01);
    assert!((to_f64(c_low) - (1000.0 + 2.0 * 2.0f64.ln())).abs() < 0.01);
    // the stabilized and the literal form agree where both are defined.
    let c_high_stable = cost_stable(fx(0.1), &balances).unwrap();
    assert!((to_f64(c_high) - to_f64(c_high_stable)).abs() < 1e-6);
}

#[test]
fn price_symmetric_two_assets() {
    let balances = vec![fx(1000.0), fx(1000.0)];
    let p = price(fx(0.1), &balances, fx(1000.0)).unwrap();
    assert!(p > 0);
    let got = to_f64(p as u128);
    // cost/sum + 0 for the symmetric case: 0.1 * (5 + ln 2).
    let expected = 0.1 * (5.0 + 2.0f64.ln());
    assert!((got - expected).abs() < 1e-4, "price was {}", got);
    assert!((got - 0.5).abs() < 0.1);
}

#[test]
fn price_quotients_symmetric() {
    let balances = vec![fx(1000.0), fx(1000.0)];
    let f = price_first_quotient(fx(0.1), &balances, fx(1000.0)).unwrap();
    let s = price_second_quotient(fx(0.1), &balances, fx(1000.0)).unwrap();
    assert!((to_f64(f) - 0.5).abs() < 1e-4);
    assert!((to_f64(s) - 0.5).abs() < 1e-4);
    let p2 = price2(fx(0.1), &balances, fx(1000.0)).unwrap();
    assert!((to_f64(p2 as u128) - 0.1 * (5.0 + 2.0f64.ln())).abs() < 1e-4);
}

#[test]
fn price_formulations_agree_on_samples() {
    let cases: Vec<(f64, Vec<f64>, f64)> = vec![
        (0.1, vec![1000.0, 1000.0], 1000.0),
        (0.1, vec![500.0, 1500.0], 700.0),
        (0.05, vec![10.0, 20.0, 30.0], 15.0),
        (0.31, vec![3.5, 0.25, 19.0, 7.0], 2.0),
        (1.5, vec![1.0, 2.0], 0.0),
    ];
    for (fee, bals, q) in cases {
        let balances: Vec<u128> = bals.iter().map(|b| fx(*b)).collect();
        let p1 = price(fx(fee), &balances, fx(q)).unwrap();
        let p2 = price2(fx(fee), &balances, fx(q)).unwrap();
        assert!((p1 - p2).abs() <= 1, "fused {} vs decomposed {}", p1, p2);
    }
}

#[test]
fn cost_monotonic_in_each_balance() {
    let fee = fx(0.1);
    let base = vec![fx(1000.0), fx(1000.0), fx(500.0)];
    let c0 = cost(fee, &base).unwrap();
    for i in 0..base.len() {
        let mut bumped = base.clone();
        bumped[i] = bumped[i] + fx(10.0);
        let c1 = cost(fee, &bumped).unwrap();
        assert!(c1 > c0, "component {} did not increase the cost", i);
    }
}

#[test]
fn cost_idempotent() {
    let balances = vec![fx(12.5), fx(88.25)];
    assert_eq!(cost(fx(0.2), &balances), cost(fx(0.2), &balances));
    assert_eq!(
        price(fx(0.2), &balances, fx(12.5)),
        price(fx(0.2), &balances, fx(12.5))
    );
    assert_eq!(
        sigmoid_fee(fx(0.25), 3, fx(2.0), 99),
        sigmoid_fee(fx(0.25), 3, fx(2.0), 99)
    );
}

#[test]
fn cost_error_cases() {
    assert_eq!(cost(0, &vec![fx(1.0)]), Err(AmmError::ZeroFee));
    assert_eq!(cost(fx(1.0), &vec![]), Err(AmmError::EmptyBalances));
    assert_eq!(cost(fx(1.0), &vec![0, 0]), Err(AmmError::ZeroSum));
    assert_eq!(cost(fx(0.001), &vec![fx(1000.0); 2]), Err(AmmError::Overflow));
    assert_eq!(price(0, &vec![fx(1.0)], fx(1.0)), Err(AmmError::ZeroFee));
    assert_eq!(price(fx(1.0), &vec![], fx(1.0)), Err(AmmError::EmptyBalances));
    assert_eq!(price(fx(1.0), &vec![0], fx(1.0)), Err(AmmError::ZeroSum));
    assert_eq!(
        price2(fx(0.001), &vec![fx(1000.0); 2], fx(1000.0)),
        Err(AmmError::Overflow)
    );
}

#[test]
fn sigmoid_matches_closed_form() {
    // amplitude 1, midpoint 0, curvature 1, reference 1: 1/sqrt(2).
    let v = sigmoid_fee(SCALE, 0, SCALE, SCALE as i128).unwrap();
    let expected = 1.0 / 2.0f64.sqrt();
    assert!((to_f64(v as u128) - expected).abs() < 1e-6);
    // the demonstration parameters: a tiny reference gives a tiny fee.
    let w = sigmoid_fee(fx(0.01), 0, fx(2.0), 1).unwrap();
    assert!(w >= 0 && (w as u128) < fx(0.0001));
}

#[test]
fn sigmoid_sign_and_undefined_cases() {
    let m = fx(0.5);
    let pos = sigmoid_fee(m, 0, fx(1.0), fx(3.0) as i128).unwrap();
    let neg = sigmoid_fee(m, 0, fx(1.0), -(fx(3.0) as i128)).unwrap();
    assert!(pos > 0 && neg < 0);
    assert_eq!(pos, -neg);
    // curvature zero at the midpoint: the 0/0 of the real formula.
    assert_eq!(sigmoid_fee(m, 7, 0, 7), None);
    // curvature zero away from the midpoint: the fee saturates to amplitude.
    let sat = sigmoid_fee(m, 0, 0, fx(123.0) as i128).unwrap();
    assert_eq!(sat as u128, m);
}

#[test]
fn log_sum_exp_values() {
    assert_eq!(log_sum_exp(&vec![]), None);
    assert_eq!(log_sum_exp_stable(&vec![]), None);
    // ln(exp(0)) = 0 and ln(2 exp(0)) = ln 2, exactly in this representation.
    assert_eq!(log_sum_exp(&vec![0]), Some(0));
    assert_eq!(log_sum_exp(&vec![0, 0]), Some(LN2_FIXED));
    assert_eq!(log_sum_exp_stable(&vec![0, 0]), Some(LN2_FIXED));
    // the stabilized form is defined where the literal overflows.
    assert_eq!(log_sum_exp(&vec![600 * SCALE]), None);
    let stable = log_sum_exp_stable(&vec![600 * SCALE]).unwrap();
    assert_eq!(stable, 600 * SCALE);
    // both defined: they agree to within a few units.
    let a = log_sum_exp(&vec![fx(1.0), fx(2.5)]).unwrap();
    let b = log_sum_exp_stable(&vec![fx(1.0), fx(2.5)]).unwrap();
    assert!((to_f64(a) - to_f64(b)).abs() < 1e-6);
    let expected = (1.0f64.exp() + 2.5f64.exp()).ln();
    assert!((to_f64(a) - expected).abs() < 1e-6);
}

#[test]
fn exponential_and_logarithm_primitives() {
    assert_eq!(exp_fixed(0), Some(SCALE));
    assert_eq!(exp_fixed(SCALE), Some(E_FIXED));
    assert!(exp_fixed(600 * SCALE).is_none());
    let e45 = exp_fixed(fx(4.5)).unwrap();
    assert!((to_f64(e45) - 4.5f64.exp()).abs() < 1e-4);
    let l = ln_fixed(E_FIXED);
    assert!(l.abs_diff(SCALE) < 1000);
    let l9 = ln_fixed(fx(9.75));
    assert!((to_f64(l9) - 9.75f64.ln()).abs() < 1e-6);
}

#[test]
fn isqrt_values() {
    assert_eq!(isqrt(0), 0);
    assert_eq!(isqrt(3), 1);
    assert_eq!(isqrt(4), 2);
    assert_eq!(isqrt(18446744073709551616), 4294967296);
    assert_eq!(isqrt(u128::MAX), 18446744073709551615);
}
