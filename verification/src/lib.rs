//! Fixed-point pricing core for a cost-function automated market maker in the
//! LMSR (logarithmic market scoring rule) style.
//!
//! Quantities are non-negative reals represented as integer multiples of
//! `1 / SCALE` (binary fixed point). The core exposes the log-sum-exp
//! primitive, the cost potential, two independently computed formulations of
//! the marginal price, and a sigmoid dynamic fee. Every entry point is a pure
//! function; where the mathematics is undefined (zero fee, zero reserve sum)
//! or an intermediate value is not representable, a distinguished error is
//! returned instead of a silently wrong number.

use vstd::prelude::*;

pub mod fixed;
pub mod exp;
pub mod ln;
pub mod lse;
pub mod cost;
pub mod price;
pub mod sigmoid;

verus! {

/// The pricing core is pure: every specification-level result is a function
/// of the arguments alone, so identical inputs always produce identical
/// outputs, across calls and across entry points.
pub proof fn lemma_pricing_idempotent(
    fee1: int,
    fee2: int,
    b1: Seq<int>,
    b2: Seq<int>,
    q1: int,
    q2: int,
    stable: bool,
)
    requires
        fee1 == fee2,
        b1 == b2,
        q1 == q2,
    ensures
        crate::cost::cost_spec(fee1, b1, stable) == crate::cost::cost_spec(fee2, b2, stable),
        crate::price::price_spec(fee1, b1, q1) == crate::price::price_spec(fee2, b2, q2),
        crate::price::price2_spec(fee1, b1, q1) == crate::price::price2_spec(fee2, b2, q2),
        crate::lse::lse_opt(b1) == crate::lse::lse_opt(b2),
{
}

/// Why a pricing computation could not produce a value.
#[derive(Clone, Copy, Debug, PartialEq, Eq, Structural)]
pub enum AmmError {
    /// The reserve vector is empty.
    EmptyBalances,
    /// The fee parameter is zero; the curve needs a strictly positive fee.
    ZeroFee,
    /// The reserve balances sum to zero, which makes the normalization divide by zero.
    ZeroSum,
    /// An intermediate value cannot be represented: either it exceeds the
    /// fixed-point range (the analogue of overflow to infinity) or the
    /// liquidity factor `fee * sum` truncates to zero.
    Overflow,
}

} // verus!
