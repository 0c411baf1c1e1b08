//! Phoenix quotes: constant product with the commission taken off the output.

use vstd::prelude::*;

verus! {

/// The Phoenix quote formula.
pub struct PhoenixAdapter {}

/// Output before the commission: `in * reserve_out / (reserve_in + in)`.
pub open spec fn phoenix_gross(amount_in: u128, reserve_in: u128, reserve_out: u128) -> int {
    amount_in * reserve_out / (reserve_in + amount_in)
}

/// Phoenix output: the gross output less `fee_bps` of it (rounded down),
/// zero when a reserve or the input is zero.
pub open spec fn phoenix_output_value(amount_in: u128, reserve_in: u128, reserve_out: u128, fee_bps: u32) -> int {
    if reserve_in == 0 || reserve_out == 0 || amount_in == 0 {
        0
    } else {
        let gross = phoenix_gross(amount_in, reserve_in, reserve_out);
        gross - gross * fee_bps / 10_000
    }
}

/// Every intermediate fits in `u128` and the commission is at most 100%.
pub open spec fn phoenix_output_safe(amount_in: u128, reserve_in: u128, reserve_out: u128, fee_bps: u32) -> bool {
    reserve_in == 0 || reserve_out == 0 || amount_in == 0 || {
        &&& amount_in * reserve_out <= u128::MAX
        &&& reserve_in + amount_in <= u128::MAX
        &&& phoenix_gross(amount_in, reserve_in, reserve_out) * fee_bps <= u128::MAX
        &&& fee_bps <= 10_000
    }
}

impl PhoenixAdapter {
    /// Output of a Phoenix swap: constant-product gross output less the
    /// commission in basis points.
    pub fn compute_output(amount_in: u128, reserve_in: u128, reserve_out: u128, fee_bps: u32) -> (r: u128)
        requires
            phoenix_output_safe(amount_in, reserve_in, reserve_out, fee_bps),
        ensures
            r == phoenix_output_value(amount_in, reserve_in, reserve_out, fee_bps),
    {
        if reserve_in == 0 || reserve_out == 0 || amount_in == 0 {
            return 0;
        }
        let gross_return = amount_in * reserve_out / (reserve_in + amount_in);
        let commission = gross_return * fee_bps as u128 / 10_000;
        assert(commission <= gross_return) by (nonlinear_arith)
            requires
                commission == gross_return * fee_bps / 10_000,
                fee_bps <= 10_000,
        ;
        gross_return - commission
    }
}

/// A swap never takes the whole output reserve, and the commission only
/// lowers the output.
pub proof fn lemma_phoenix_output_below_reserve(amount_in: u128, reserve_in: u128, reserve_out: u128, fee_bps: u32)
    requires
        reserve_out > 0,
        fee_bps <= 10_000,
    ensures
        0 <= phoenix_output_value(amount_in, reserve_in, reserve_out, fee_bps) < reserve_out,
        reserve_in > 0 && amount_in > 0 ==> phoenix_output_value(amount_in, reserve_in, reserve_out, fee_bps)
            <= phoenix_gross(amount_in, reserve_in, reserve_out),
{
    if !(reserve_in == 0 || amount_in == 0) {
        let x: int = amount_in as int;
        let ro: int = reserve_out as int;
        let ri: int = reserve_in as int;
        assert(0 <= x * ro < (ri + x) * ro) by (nonlinear_arith)
            requires
                x >= 1,
                ri >= 1,
                ro >= 1,
        ;
        vstd::arithmetic::div_mod::lemma_multiply_divide_lt(x * ro, ri + x, ro);
        vstd::arithmetic::div_mod::lemma_div_pos_is_pos(x * ro, ri + x);
        let gross = phoenix_gross(amount_in, reserve_in, reserve_out);
        assert(0 <= gross * fee_bps / 10_000 <= gross) by (nonlinear_arith)
            requires
                gross >= 0,
                0 <= fee_bps <= 10_000,
        ;
    }
}

} // verus!
