use lumagg::stats::{
    quote_sim_gap_bps, ArbStats, ArbStatsDelta, ArbStatsSnapshot, BridgeStatsSnapshot, QuietWindowTracker,
};

#[test]
fn quote_sim_gap_bps_matches_observed_20bps_pattern() {
    let amount_in = 100_000_000u128;
    let quoted = 100_143_095u128;
    let on_chain = 99_942_226u128;
    let gap = quote_sim_gap_bps(amount_in, quoted, on_chain);
    assert!((19..=21).contains(&gap), "gap={gap}");
}

#[test]
fn quiet_tracker_requires_consecutive_windows() {
    let mut t = QuietWindowTracker::new(2, 10);
    let mut snap = ArbStatsSnapshot {
        routes_evaluated: 0,
        quote_failed: 0,
        unprofitable_quotes: 0,
        opportunities: 0,
        txs_prepared: 0,
        txs_sim_rejected: 0,
        txs_sim_profit_rejected: 0,
        discard_size_unprofitable: 0,
        discard_below_quoted: 0,
        discard_fee_gate: 0,
        discard_probe_unprofitable: 0,
        avg_quote_sim_gap_bps: 20,
        quote_sim_gap_samples: 0,
        txs_dry_run: 0,
        txs_submitted: 0,
        txs_succeeded: 0,
        txs_failed: 0,
        txs_dedup_skipped: 0,
    };
    assert!(t.observe(snap).is_none());

    snap.opportunities = 50;
    assert!(t.observe(snap).is_none());

    snap.opportunities = 100;
    let alert = t.observe(snap).expect("window 2 fires");
    assert_eq!(alert.consecutive_windows, 2);
    assert_eq!(alert.opportunities_delta, 50);
    assert_eq!(alert.prepared_delta, 0);

    snap.opportunities = 150;
    snap.txs_prepared = 1;
    assert!(t.observe(snap).is_none());
    assert_eq!(t.consecutive_quiet, 0);
}

#[test]
fn quiet_tracker_ignores_low_opportunity_ticks() {
    let mut t = QuietWindowTracker::new(1, 100);
    let mut snap = ArbStatsSnapshot {
        routes_evaluated: 0,
        quote_failed: 0,
        unprofitable_quotes: 0,
        opportunities: 0,
        txs_prepared: 0,
        txs_sim_rejected: 0,
        txs_sim_profit_rejected: 0,
        discard_size_unprofitable: 0,
        discard_below_quoted: 0,
        discard_fee_gate: 0,
        discard_probe_unprofitable: 0,
        avg_quote_sim_gap_bps: 0,
        quote_sim_gap_samples: 0,
        txs_dry_run: 0,
        txs_submitted: 0,
        txs_succeeded: 0,
        txs_failed: 0,
        txs_dedup_skipped: 0,
    };
    assert!(t.observe(snap).is_none());
    snap.opportunities = 50;
    assert!(t.observe(snap).is_none());
}

#[test]
fn rates_handle_zero_opportunities() {
    let s = ArbStats::default().snapshot();
    assert_eq!(s.prepare_rate_bps(), 0);
    assert_eq!(s.sim_reject_rate_bps(), 0);
}

#[test]
fn snapshot_delta_tracks_only_new_counters() {
    let mut previous = ArbStatsSnapshot { opportunities: 10, txs_prepared: 2, txs_succeeded: 1, ..ArbStats::default().snapshot() };
    let current = ArbStatsSnapshot { opportunities: 15, txs_prepared: 3, txs_succeeded: 2, ..previous };

    assert_eq!(
        current.delta_since(&previous),
        ArbStatsDelta { opportunities: 5, txs_prepared: 1, txs_succeeded: 1, ..ArbStatsDelta::default() }
    );

    previous.opportunities = 0;
    assert_eq!(current.delta_since(&previous).opportunities, 15);
}

#[test]
fn bridge_breakdown_tracks_each_bridge() {
    let mut stats = ArbStats::default();
    stats.record_bridge_evaluated("A");
    stats.record_bridge_evaluated("A");
    stats.record_bridge_quote_failed("A");
    stats.record_bridge_opportunity("B");

    assert_eq!(
        stats.bridge_breakdown(),
        vec![
            BridgeStatsSnapshot {
                bridge: "A".into(),
                evaluated: 2,
                quote_failed: 1,
                unprofitable_quotes: 0,
                opportunities: 0,
            },
            BridgeStatsSnapshot {
                bridge: "B".into(),
                evaluated: 0,
                quote_failed: 0,
                unprofitable_quotes: 0,
                opportunities: 1,
            },
        ]
    );
}

#[test]
fn bridge_breakdown_orders_names_bytewise() {
    let mut stats = ArbStats::new();
    stats.record_bridge_unprofitable("b");
    stats.record_bridge_evaluated("B");
    stats.record_bridge_evaluated("AA");
    stats.record_bridge_evaluated("A");
    let names: Vec<String> = stats.bridge_breakdown().into_iter().map(|r| r.bridge).collect();
    assert_eq!(names, vec!["A".to_string(), "AA".to_string(), "B".to_string(), "b".to_string()]);
}

#[test]
fn snapshot_averages_gap_toward_zero() {
    let mut stats = ArbStats::new();
    stats.record_quote_sim_gap(100_000_000, 100_143_095, 99_942_226);
    stats.record_quote_sim_gap(100_000_000, 100_000_000, 100_000_000);
    stats.record_quote_sim_gap(100_000_000, 99_990_000, 100_000_000);
    let s = stats.snapshot();
    assert_eq!(s.quote_sim_gap_samples, 3);
    assert_eq!(stats.quote_sim_gap_bps_sum, 19 + 0 - 1);
    assert_eq!(s.avg_quote_sim_gap_bps, 6);
}

#[test]
fn prepare_rate_saturates_large_counts() {
    let s = ArbStatsSnapshot { opportunities: 3, txs_prepared: u64::MAX, ..ArbStats::default().snapshot() };
    assert_eq!(s.prepare_rate_bps(), u64::MAX / 3);
    let r = ArbStatsSnapshot { opportunities: 4, txs_prepared: 1, txs_sim_profit_rejected: 3, ..s };
    assert_eq!(r.prepare_rate_bps(), 2_500);
    assert_eq!(r.sim_reject_rate_bps(), 7_500);
}

#[test]
fn quiet_tracker_new_raises_zero_settings_to_one() {
    let t = QuietWindowTracker::new(0, 0);
    assert_eq!(t.min_windows, 1);
    assert_eq!(t.min_opportunities, 1);
    assert!(!t.primed);
}
