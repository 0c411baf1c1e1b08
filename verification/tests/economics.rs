use lumagg::economics::{fee_in_base_units, min_profit_for_base, USDC_SAC, XLM_SAC};

#[test]
fn xlm_fee_unchanged() {
    assert_eq!(fee_in_base_units(115_155, XLM_SAC, 3_000_000), 115_155);
}

#[test]
fn usdc_fee_scales_with_xlm_price() {
    assert_eq!(fee_in_base_units(115_155, USDC_SAC, 3_000_000), 34_547);
}

#[test]
fn usdc_fee_zero_price_falls_back_to_raw() {
    assert_eq!(fee_in_base_units(115_155, USDC_SAC, 0), 115_155);
}

#[test]
fn observed_usdc_opp_passes_with_converted_fee() {
    let sim_profit = 92_342u128;
    let fee_base = fee_in_base_units(115_155, USDC_SAC, 3_000_000);
    let net = sim_profit.saturating_sub(fee_base);
    let min = min_profit_for_base(USDC_SAC, 80_000, None, Some(30_000));
    assert!(fee_base < 40_000, "fee_base={fee_base}");
    assert!(net >= min, "net={net} min={min} fee={fee_base}");
}

#[test]
fn min_profit_overrides() {
    assert_eq!(min_profit_for_base(XLM_SAC, 80_000, Some(90_000), Some(30_000)), 90_000);
    assert_eq!(min_profit_for_base(USDC_SAC, 80_000, Some(90_000), Some(30_000)), 30_000);
    assert_eq!(min_profit_for_base(USDC_SAC, 80_000, None, None), 80_000);
    assert_eq!(min_profit_for_base("COTHER", 80_000, Some(1), Some(2)), 80_000);
}

#[test]
fn fee_conversion_edge_cases() {
    assert_eq!(fee_in_base_units(115_155, "", 3_000_000), 115_155);
    assert_eq!(fee_in_base_units(115_155, "COTHER", 3_000_000), 115_155);
    assert_eq!(fee_in_base_units(u128::MAX, USDC_SAC, 2), u128::MAX / 10_000_000);
    assert_eq!(fee_in_base_units(1, USDC_SAC, 1), 1);
}
