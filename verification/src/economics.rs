//! Per-base profit floors and fee conversion (Soroban fees are paid in XLM).

use vstd::prelude::*;

use crate::text::str_eq;

verus! {

/// Native XLM SAC (mainnet).
pub const XLM_SAC: &'static str = "CAS3J7GYLGXMF6TDJBBYYSE3HQ6BBSMLNUQ34T6TZMYMW2EVH34XOWMA";

/// Circle USDC SAC (mainnet).
pub const USDC_SAC: &'static str = "CCW67TSZV3SSS2HXMBQ5JFGCKJNXKZM7UQUWUZPUTHXSTZLEO7SJMI75";

/// 1.0 token in 7-decimal base units.
pub const UNIT_E7: u128 = 10_000_000;

/// `min(a * b, u128::MAX)`.
pub open spec fn sat_mul_u128(a: u128, b: u128) -> int {
    if a * b > u128::MAX {
        u128::MAX as int
    } else {
        a * b
    }
}

/// `min(a + b, u128::MAX)`.
pub open spec fn sat_add_u128(a: int, b: int) -> int {
    if a + b > u128::MAX {
        u128::MAX as int
    } else {
        a + b
    }
}

/// The fee in base-token units: unchanged for XLM, an empty or an unknown
/// base, and for USDC without a price; for USDC the fee times the price in
/// 1e7 units, rounded up (both steps saturating).
pub open spec fn fee_in_base_value(fee_xlm_stroops: u128, base_token: Seq<char>, xlm_usdc_price_e7: u128) -> int {
    if base_token == XLM_SAC@ || base_token.len() == 0 {
        fee_xlm_stroops as int
    } else if base_token == USDC_SAC@ && xlm_usdc_price_e7 != 0 {
        sat_add_u128(sat_mul_u128(fee_xlm_stroops, xlm_usdc_price_e7), UNIT_E7 - 1) / (UNIT_E7 as int)
    } else {
        fee_xlm_stroops as int
    }
}

/// Convert a Soroban resource fee (XLM stroops) into base-token units for the
/// profit gate.
///
/// - XLM base: fee stays in stroops.
/// - USDC base: `fee_xlm * xlm_usdc_price_e7 / 1e7` (price = USDC units per 1
///   XLM), rounded up so gas is never understated.
/// - Other bases: treat fee as XLM stroops (conservative / legacy).
pub fn fee_in_base_units(fee_xlm_stroops: u128, base_token: &str, xlm_usdc_price_e7: u128) -> (r: u128)
    ensures
        r == fee_in_base_value(fee_xlm_stroops, base_token@, xlm_usdc_price_e7),
{
    if str_eq(base_token, XLM_SAC) || base_token.is_empty() {
        return fee_xlm_stroops;
    }
    if str_eq(base_token, USDC_SAC) {
        if xlm_usdc_price_e7 == 0 {
            return fee_xlm_stroops;
        }
        let product: u128 = match fee_xlm_stroops.checked_mul(xlm_usdc_price_e7) {
            Some(p) => p,
            None => u128::MAX,
        };
        return product.saturating_add(UNIT_E7 - 1) / UNIT_E7;
    }
    fee_xlm_stroops
}

/// A USDC fee is never understated: it is the XLM fee times the price,
/// rounded up to a whole base unit, as long as that product does not
/// saturate.
pub proof fn lemma_usdc_fee_rounds_up(fee_xlm_stroops: u128, xlm_usdc_price_e7: u128)
    requires
        xlm_usdc_price_e7 != 0,
        fee_xlm_stroops * xlm_usdc_price_e7 + UNIT_E7 - 1 <= u128::MAX,
    ensures
        fee_in_base_value(fee_xlm_stroops, USDC_SAC@, xlm_usdc_price_e7) * UNIT_E7 >= fee_xlm_stroops
            * xlm_usdc_price_e7,
        fee_in_base_value(fee_xlm_stroops, USDC_SAC@, xlm_usdc_price_e7) * UNIT_E7 < fee_xlm_stroops
            * xlm_usdc_price_e7 + UNIT_E7,
{
    reveal_strlit("CAS3J7GYLGXMF6TDJBBYYSE3HQ6BBSMLNUQ34T6TZMYMW2EVH34XOWMA");
    reveal_strlit("CCW67TSZV3SSS2HXMBQ5JFGCKJNXKZM7UQUWUZPUTHXSTZLEO7SJMI75");
    assert(USDC_SAC@ != XLM_SAC@) by {
        assert(USDC_SAC@[1] != XLM_SAC@[1]);
    }
    let p: int = fee_xlm_stroops * xlm_usdc_price_e7;
    let r = (p + UNIT_E7 - 1) / (UNIT_E7 as int);
    assert(fee_in_base_value(fee_xlm_stroops, USDC_SAC@, xlm_usdc_price_e7) == r);
    vstd::arithmetic::div_mod::lemma_fundamental_div_mod(p + UNIT_E7 - 1, UNIT_E7 as int);
}

/// The profit floor for a base token: the XLM or USDC override when set,
/// else the default.
pub open spec fn min_profit_value(
    base_token: Seq<char>,
    default_min_profit: u128,
    min_profit_xlm: Option<u128>,
    min_profit_usdc: Option<u128>,
) -> u128 {
    if base_token == XLM_SAC@ {
        match min_profit_xlm {
            Some(v) => v,
            None => default_min_profit,
        }
    } else if base_token == USDC_SAC@ {
        match min_profit_usdc {
            Some(v) => v,
            None => default_min_profit,
        }
    } else {
        default_min_profit
    }
}

/// Resolve min profit floor for a base token (base-token units, 7 decimals).
pub fn min_profit_for_base(
    base_token: &str,
    default_min_profit: u128,
    min_profit_xlm: Option<u128>,
    min_profit_usdc: Option<u128>,
) -> (r: u128)
    ensures
        r == min_profit_value(base_token@, default_min_profit, min_profit_xlm, min_profit_usdc),
{
    if str_eq(base_token, XLM_SAC) {
        return min_profit_xlm.unwrap_or(default_min_profit);
    }
    if str_eq(base_token, USDC_SAC) {
        return min_profit_usdc.unwrap_or(default_min_profit);
    }
    default_min_profit
}

} // verus!
