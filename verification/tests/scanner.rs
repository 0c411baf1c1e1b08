use lumagg::bridge::{LegQuote, RoundTripQuote};
use lumagg::scanner::{compute_profit_bps, evaluate_bridge_pair, worth_quoting};
use lumagg::stats::ArbStats;

#[test]
fn computes_profit_bps_without_narrowing_amounts() {
    let amount_in = (i64::MAX as u128 + 1) * 100;
    assert_eq!(compute_profit_bps(amount_in, amount_in + amount_in / 100), 100);
    assert_eq!(compute_profit_bps(amount_in, amount_in - amount_in / 100), -100);
}

#[test]
fn profit_bps_edges() {
    assert_eq!(compute_profit_bps(0, 5), 0);
    assert_eq!(compute_profit_bps(1, u128::MAX), i64::MAX);
    assert_eq!(compute_profit_bps(3, 2), -3_333);
    assert_eq!(compute_profit_bps(100, 0), -10_000);
}

fn round_trip(amount_in: u128, amount_out: u128) -> RoundTripQuote {
    let leg = LegQuote {
        sub_orders: vec![],
        total_amount_in: 0,
        total_expected_out: 0,
        is_split: false,
        step_sets: vec![],
        minimum_out: 0,
        snapshot_age_ms: None,
        pool_state_age_ms: None,
    };
    RoundTripQuote {
        base: "XLM".into(),
        bridge: "USDC".into(),
        amount_in,
        amount_out,
        minimum_out: 0,
        leg_out: leg.clone(),
        leg_back: leg,
    }
}

#[test]
fn failed_probe_is_counted_and_dropped() {
    let mut stats = ArbStats::new();
    assert!(evaluate_bridge_pair(&mut stats, None, Some(round_trip(100, 200)), 1).is_none());
    assert_eq!(stats.quote_failed, 1);
    assert_eq!(stats.opportunities, 0);
}

#[test]
fn sized_quote_is_preferred_and_gated_by_min_profit() {
    let mut stats = ArbStats::new();
    let opp = evaluate_bridge_pair(&mut stats, Some(round_trip(100, 101)), Some(round_trip(1_000, 1_050)), 40)
        .unwrap();
    assert_eq!(opp.quote.amount_in, 1_000);
    assert_eq!(opp.profit_bps, 500);
    assert_eq!(opp.route_label, "XLM → USDC → XLM");
    assert_eq!(stats.opportunities, 1);

    assert!(evaluate_bridge_pair(&mut stats, Some(round_trip(100, 130)), None, 40).is_none());
    assert_eq!(stats.unprofitable_quotes, 1);
    let opp = evaluate_bridge_pair(&mut stats, Some(round_trip(100, 140)), None, 40).unwrap();
    assert_eq!(opp.quote.amount_out, 140);
    assert_eq!(stats.opportunities, 2);
    assert_eq!(stats.quote_failed, 0);
}

#[test]
fn bases_below_the_trade_floor_are_not_quoted() {
    assert!(worth_quoting(10, 10));
    assert!(!worth_quoting(9, 10));
}
