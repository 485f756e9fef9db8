//! Property-style tests sampled over grids of concrete inputs.

use rikiddo::cost::cost;
use rikiddo::price::{price, price2};
use rikiddo::sigmoid::sigmoid_fee;

fn fx(x: f64) -> u128 {
    (x * 4294967296.0) as u128
}

#[test]
fn sigmoid_bounded_by_amplitude() {
    let amplitudes = [fx(0.01), fx(1.0), fx(250.0)];
    let curvatures = [0u128, fx(0.5), fx(2.0), fx(1000.0)];
    let references: [i128; 7] = [
        -(fx(100000.0) as i128),
        -(fx(3.25) as i128),
        -1,
        0,
        1,
        fx(3.25) as i128,
        fx(100000.0) as i128,
    ];
    for &m in amplitudes.iter() {
        for &p in curvatures.iter() {
            for &r in references.iter() {
                if let Some(v) = sigmoid_fee(m, fx(1.5) as i128, p, r) {
                    assert!(v.unsigned_abs() <= m, "sigmoid {} exceeded amplitude {}", v, m);
                }
            }
        }
    }
}

#[test]
fn sigmoid_monotone_in_reference() {
    let m = fx(5.0);
    let n = fx(2.0) as i128;
    let p = fx(3.0);
    let refs: Vec<i128> = vec![
        -(fx(50.0) as i128),
        -(fx(2.0) as i128),
        0,
        n,
        fx(2.5) as i128,
        fx(10.0) as i128,
        fx(5000.0) as i128,
    ];
    let mut last: Option<i128> = None;
    for &r in refs.iter() {
        let v = sigmoid_fee(m, n, p, r).unwrap();
        if let Some(prev) = last {
            assert!(prev <= v, "sigmoid fell from {} to {}", prev, v);
        }
        last = Some(v);
    }
}

#[test]
fn price_formulations_agree_on_grid() {
    let fees = [0.05, 0.1, 0.8];
    let vectors: [Vec<f64>; 3] = [
        vec![500.0, 500.0],
        vec![10.0, 250.0, 3.0],
        vec![1.0, 2.0, 3.0, 4.0, 5.0],
    ];
    let questions = [0.0, 1.0, 42.0, 500.0];
    for &fee in fees.iter() {
        for bals in vectors.iter() {
            let balances: Vec<u128> = bals.iter().map(|b| fx(*b)).collect();
            for &q in questions.iter() {
                let p1 = price(fx(fee), &balances, fx(q));
                let p2 = price2(fx(fee), &balances, fx(q));
                match (p1, p2) {
                    (Ok(a), Ok(b)) => {
                        assert!((a - b).abs() <= 1, "fused {} vs decomposed {}", a, b)
                    },
                    (e1, e2) => assert_eq!(e1, e2),
                }
            }
        }
    }
}

fn cost_oracle(fee: f64, balances: &[f64]) -> f64 {
    let k = fee * balances.iter().sum::<f64>();
    k * balances.iter().map(|b| (b / k).exp()).sum::<f64>().ln()
}

fn price_oracle(fee: f64, balances: &[f64], q: f64) -> f64 {
    let s: f64 = balances.iter().sum();
    let k = fee * s;
    let exps: Vec<f64> = balances.iter().map(|b| (b / k).exp()).collect();
    let weighted: f64 = balances.iter().zip(exps.iter()).map(|(b, e)| b * e).sum();
    cost_oracle(fee, balances) / s + ((q / k).exp() * s - weighted) / (exps.iter().sum::<f64>() * s)
}

#[test]
fn cost_and_price_match_float_reference() {
    let to_f64 = |v: u128| v as f64 / 4294967296.0;
    let cases: [(f64, Vec<f64>, f64); 3] = [
        (0.1, vec![500.0, 1500.0], 700.0),
        (0.05, vec![10.0, 20.0, 30.0], 15.0),
        (0.31, vec![3.5, 0.25, 19.0, 7.0], 2.0),
    ];
    for (fee, bals, q) in cases {
        let balances: Vec<u128> = bals.iter().map(|b| fx(*b)).collect();
        let c = cost(fx(fee), &balances).unwrap();
        let expected_cost = cost_oracle(fee, &bals);
        assert!(
            (to_f64(c) - expected_cost).abs() < 1e-4 * expected_cost.abs(),
            "cost {} vs {}",
            to_f64(c),
            expected_cost
        );
        let p = price(fx(fee), &balances, fx(q)).unwrap();
        let expected_price = price_oracle(fee, &bals, q);
        assert!(
            (p as f64 / 4294967296.0 - expected_price).abs() < 1e-4,
            "price {} vs {}",
            p as f64 / 4294967296.0,
            expected_price
        );
    }
}

#[test]
fn cost_symmetric_closed_form() {
    // For a uniform reserve vector the cost has the closed form K*ln(n) + v.
    let to_f64 = |v: u128| v as f64 / 4294967296.0;
    for (fee, v, n) in [(0.1, 1000.0, 2usize), (0.2, 50.0, 3), (0.05, 973.022099, 4)] {
        let balances = vec![fx(v); n];
        let c = cost(fx(fee), &balances).unwrap();
        let k = fee * v * n as f64;
        let expected = k * (n as f64).ln() + v;
        assert!((to_f64(c) - expected).abs() < 0.01, "cost {} vs {}", to_f64(c), expected);
    }
}

#[test]
fn cost_monotonic_on_grid() {
    let fee = fx(0.25);
    let base: Vec<f64> = vec![20.0, 40.0, 60.0];
    let balances: Vec<u128> = base.iter().map(|b| fx(*b)).collect();
    let c0 = cost(fee, &balances).unwrap();
    for i in 0..balances.len() {
        for bump in [fx(0.5), fx(5.0), fx(500.0)] {
            let mut bumped = balances.clone();
            bumped[i] += bump;
            let c1 = cost(fee, &bumped).unwrap();
            assert!(c1 > c0);
        }
    }
}
