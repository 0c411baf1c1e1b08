use lumagg::phoenix::PhoenixAdapter;
use lumagg::soroswap::SoroswapAdapter;

#[test]
fn test_compute_output_basic() {
    let out = SoroswapAdapter::compute_output(10_0000000, 100_000_0000000, 100_000_0000000);
    assert!(out > 9_9000000 && out < 10_0000000);
}

#[test]
fn test_compute_output_zero_reserves() {
    assert_eq!(SoroswapAdapter::compute_output(1000, 0, 100_000), 0);
    assert_eq!(SoroswapAdapter::compute_output(1000, 100_000, 0), 0);
}

#[test]
fn test_compute_output_zero_input() {
    assert_eq!(SoroswapAdapter::compute_output(0, 100_000, 100_000), 0);
}

#[test]
fn test_fee_ceiling_division() {
    let out = SoroswapAdapter::compute_output(1, 1_000_000, 1_000_000);
    assert_eq!(out, 0);

    let out = SoroswapAdapter::compute_output(334, 1_000_000, 1_000_000);
    assert!(out > 0);
}

#[test]
fn test_large_trade_price_impact() {
    let reserve = 1_000_000_0000000u128;
    let amount_in = 100_000_0000000u128;
    let out = SoroswapAdapter::compute_output(amount_in, reserve, reserve);
    assert!(out < 100_000_0000000);
    assert!(out > 90_000_0000000);
}

#[test]
fn soroswap_output_exact_value() {
    // fee = ceil(1000 * 3 / 1000) = 3; (997 * 10_000) / (10_000 + 997) = 906
    assert_eq!(SoroswapAdapter::compute_output(1000, 10_000, 10_000), 906);
}

#[test]
fn soroswap_output_stays_below_reserve() {
    let out = SoroswapAdapter::compute_output(u64::MAX as u128, 10, 1_000);
    assert!(out < 1_000);
}

#[test]
fn soroswap_price_impact_caps_at_full() {
    assert_eq!(SoroswapAdapter::compute_price_impact(100, 0), 10_000);
    assert_eq!(SoroswapAdapter::compute_price_impact(100, 10_000), 50);
    assert_eq!(SoroswapAdapter::compute_price_impact(1_000_000, 10), 10_000);
}

#[test]
fn test_phoenix_output() {
    let out = PhoenixAdapter::compute_output(100, 10_000, 10_000, 30);
    assert!(out > 95 && out < 100);
}

#[test]
fn test_phoenix_high_fee() {
    let out = PhoenixAdapter::compute_output(1000, 100_000, 100_000, 300);
    assert!(out > 950 && out < 980);
}

#[test]
fn test_phoenix_zero() {
    assert_eq!(PhoenixAdapter::compute_output(0, 100_000, 100_000, 30), 0);
    assert_eq!(PhoenixAdapter::compute_output(100, 0, 100_000, 30), 0);
    assert_eq!(PhoenixAdapter::compute_output(100, 100_000, 0, 30), 0);
}

#[test]
fn phoenix_output_exact_value() {
    // gross = 1000 * 100_000 / 101_000 = 990; commission = 990 * 300 / 10_000 = 29
    assert_eq!(PhoenixAdapter::compute_output(1000, 100_000, 100_000, 300), 961);
}
