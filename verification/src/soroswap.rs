//! Soroswap quotes: the Uniswap-V2 constant product with a 0.3% fee taken
//! off the input, rounded up.

use vstd::prelude::*;

verus! {

/// The Soroswap quote formulas.
pub struct SoroswapAdapter {}

/// The fee on an input: 0.3%, rounded up.
pub open spec fn soroswap_fee(amount_in: u128) -> int {
    (amount_in * 3 + 999) / 1000
}

/// Soroswap output: `(in - fee) * reserve_out / (reserve_in + in - fee)`,
/// zero when a reserve or the input is zero.
pub open spec fn soroswap_output_value(amount_in: u128, reserve_in: u128, reserve_out: u128) -> int {
    if reserve_in == 0 || reserve_out == 0 || amount_in == 0 {
        0
    } else {
        let in_after_fee = amount_in - soroswap_fee(amount_in);
        in_after_fee * reserve_out / (reserve_in + in_after_fee)
    }
}

/// Every intermediate of the formula fits in `u128`.
pub open spec fn soroswap_output_safe(amount_in: u128, reserve_in: u128, reserve_out: u128) -> bool {
    reserve_in == 0 || reserve_out == 0 || amount_in == 0 || {
        let in_after_fee = amount_in - soroswap_fee(amount_in);
        &&& amount_in * 3 + 999 <= u128::MAX
        &&& in_after_fee * reserve_out <= u128::MAX
        &&& reserve_in + in_after_fee <= u128::MAX
    }
}

/// Price impact in basis points: the input against twice the input reserve,
/// capped at 100% (and 100% for an empty reserve).
pub open spec fn soroswap_impact_value(amount_in: u128, reserve_in: u128) -> int {
    if reserve_in == 0 {
        10_000
    } else {
        let raw = amount_in * 10_000 / (2 * reserve_in);
        if raw < 10_000 { raw } else { 10_000 }
    }
}

impl SoroswapAdapter {
    /// Output of a constant-product swap with the on-chain rounding: the fee
    /// is rounded up, the output down.
    pub fn compute_output(amount_in: u128, reserve_in: u128, reserve_out: u128) -> (r: u128)
        requires
            soroswap_output_safe(amount_in, reserve_in, reserve_out),
        ensures
            r == soroswap_output_value(amount_in, reserve_in, reserve_out),
    {
        if reserve_in == 0 || reserve_out == 0 || amount_in == 0 {
            return 0;
        }
        let fee = (amount_in * 3 + 999) / 1000;
        assert(fee <= amount_in) by (nonlinear_arith)
            requires
                fee == (amount_in * 3 + 999) / 1000,
                amount_in >= 1,
        ;
        let in_after_fee = amount_in - fee;
        let numerator = in_after_fee * reserve_out;
        let denominator = reserve_in + in_after_fee;
        numerator / denominator
    }

    /// Price impact of an input against a reserve, in basis points.
    pub fn compute_price_impact(amount_in: u128, reserve_in: u128) -> (r: u32)
        requires
            reserve_in == 0 || (amount_in * 10_000 <= u128::MAX && 2 * reserve_in <= u128::MAX),
        ensures
            r == soroswap_impact_value(amount_in, reserve_in),
    {
        if reserve_in == 0 {
            return 10_000;
        }
        let impact = amount_in * 10_000 / (2 * reserve_in);
        if impact < 10_000 {
            impact as u32
        } else {
            10_000
        }
    }
}

/// A swap never takes the whole output reserve: the output is below the
/// output reserve whenever that reserve is not empty.
pub proof fn lemma_soroswap_output_below_reserve(amount_in: u128, reserve_in: u128, reserve_out: u128)
    requires
        reserve_out > 0,
    ensures
        0 <= soroswap_output_value(amount_in, reserve_in, reserve_out) < reserve_out,
{
    if !(reserve_in == 0 || amount_in == 0) {
        let fee = soroswap_fee(amount_in);
        assert(0 <= fee <= amount_in) by (nonlinear_arith)
            requires
                fee == (amount_in * 3 + 999) / 1000,
                amount_in >= 1,
        ;
        let x: int = amount_in - fee;
        let ro: int = reserve_out as int;
        let ri: int = reserve_in as int;
        assert(0 <= x * ro < (ri + x) * ro) by (nonlinear_arith)
            requires
                x >= 0,
                ri >= 1,
                ro >= 1,
        ;
        vstd::arithmetic::div_mod::lemma_multiply_divide_lt(x * ro, ri + x, ro);
        vstd::arithmetic::div_mod::lemma_div_pos_is_pos(x * ro, ri + x);
    }
}

} // verus!
