use lumagg::probe::{
    error_report, sub_route_complete, HopWalk,
    first_diverging_hop, hop_gap_bps, pick_bridges, round_trip_abs_gap_bps, HopCompare, HopCompareReport,
    ProbeSampleReport, RoundTripProbeReport,
};

#[test]
fn gap_bps_matches_20bps_fixture() {
    let amount_in = 100_000_000u128;
    let local = 100_143_095u128;
    let chain = 99_942_226u128;
    let gap = hop_gap_bps(amount_in, local, chain);
    assert!((19..=21).contains(&gap), "gap={gap}");
}

#[test]
fn first_diverging_hop_picks_earliest_above_threshold() {
    let hops = vec![
        HopCompare {
            index: 0,
            source: "soroswap".into(),
            pool: "P0".into(),
            amount_in: 100_000_000,
            local_out: 50_000_000,
            chain_out: Some(50_000_000),
        },
        HopCompare {
            index: 1,
            source: "aquarius".into(),
            pool: "P1".into(),
            amount_in: 50_000_000,
            local_out: 100_200_000,
            chain_out: Some(99_900_000),
        },
    ];
    let idx = first_diverging_hop(&hops, 5).expect("should find hop 1");
    assert_eq!(idx, 1);
}

#[test]
fn sample_round_robin_bridges_is_deterministic_with_seed() {
    let bridges = vec!["A".into(), "B".into(), "C".into()];
    let a = pick_bridges(&bridges, 5, 42);
    let b = pick_bridges(&bridges, 5, 42);
    assert_eq!(a, b);
    assert_eq!(a.len(), 5);
}

#[test]
fn first_diverging_hop_skips_unknown_local_out_on_intermediate_hops() {
    let hops = vec![
        HopCompare {
            index: 0,
            source: "soroswap".into(),
            pool: "P0".into(),
            amount_in: 100_000_000,
            local_out: 0,
            chain_out: Some(50_000_000),
        },
        HopCompare {
            index: 1,
            source: "aquarius".into(),
            pool: "P1".into(),
            amount_in: 50_000_000,
            local_out: 100_200_000,
            chain_out: Some(99_900_000),
        },
    ];
    let idx = first_diverging_hop(&hops, 5).expect("should find hop 1");
    assert_eq!(idx, 1);
}

#[test]
fn first_diverging_hop_returns_chain_failure_not_unknown_local() {
    let hops = vec![
        HopCompare {
            index: 0,
            source: "soroswap".into(),
            pool: "P0".into(),
            amount_in: 100_000_000,
            local_out: 0,
            chain_out: Some(50_000_000),
        },
        HopCompare {
            index: 1,
            source: "aquarius".into(),
            pool: "P1".into(),
            amount_in: 50_000_000,
            local_out: 0,
            chain_out: None,
        },
    ];
    let idx = first_diverging_hop(&hops, 5).expect("should find hop 1");
    assert_eq!(idx, 1);
}

#[test]
fn hop_compare_report_omits_gap_when_local_out_unknown() {
    let hop = HopCompare {
        index: 0,
        source: "soroswap".into(),
        pool: "P0".into(),
        amount_in: 100_000_000,
        local_out: 0,
        chain_out: Some(50_000_000),
    };
    let report = HopCompareReport::from(&hop);
    assert_eq!(report.gap_bps, None);
}

fn sample_leg(gap_bps: Option<i64>) -> ProbeSampleReport {
    ProbeSampleReport {
        mode: "one-leg".into(),
        token_in: "BASE".into(),
        token_out: "BRIDGE".into(),
        amount_in: 100,
        local_out: 101,
        chain_path_out: Some(100),
        gap_bps,
        first_bad_hop: None,
        hops: vec![],
        simulate_out: None,
        simulate_gap_bps: None,
        error: None,
    }
}

fn round_trip_report(
    leg_out_gap: Option<i64>,
    leg_back_gap: Option<i64>,
    simulate_gap_bps: Option<i64>,
) -> RoundTripProbeReport {
    RoundTripProbeReport {
        bridge: "BRIDGE".into(),
        amount_in: 100,
        quoted_out: 102,
        quoted_profit_bps: 200,
        leg_out: sample_leg(leg_out_gap),
        leg_back: sample_leg(leg_back_gap),
        simulate_out: None,
        simulate_gap_bps,
        error: None,
    }
}

#[test]
fn round_trip_abs_gap_prefers_simulate_gap() {
    let report = round_trip_report(Some(5), Some(20), Some(-15));
    assert_eq!(round_trip_abs_gap_bps(&report), Some(15));
}

#[test]
fn round_trip_abs_gap_uses_max_leg_gap_without_simulate() {
    let report = round_trip_report(Some(5), Some(20), None);
    assert_eq!(round_trip_abs_gap_bps(&report), Some(20));
}

#[test]
fn round_trip_abs_gap_none_when_legs_incomplete() {
    let report = round_trip_report(Some(5), None, None);
    assert_eq!(round_trip_abs_gap_bps(&report), None);
}

#[test]
fn round_trip_abs_gap_of_most_negative() {
    let report = round_trip_report(None, None, Some(i64::MIN));
    assert_eq!(round_trip_abs_gap_bps(&report), Some(1u64 << 63));
}

#[test]
fn hop_compare_report_keeps_gap_when_both_known() {
    let hop = HopCompare {
        index: 3,
        source: "aquarius".into(),
        pool: "P3".into(),
        amount_in: 100_000_000,
        local_out: 100_143_095,
        chain_out: Some(99_942_226),
    };
    let report = HopCompareReport::from(&hop);
    assert_eq!(report.gap_bps, Some(19));
    assert_eq!(report.index, 3);
    assert_eq!(report.pool, "P3");
}

#[test]
fn pick_bridges_follows_the_generator() {
    let bridges: Vec<String> = vec!["A".into(), "B".into(), "C".into()];
    let mut state: u64 = 42;
    let mut expected = Vec::new();
    for _ in 0..4 {
        state = state.wrapping_mul(6364136223846793005).wrapping_add(1);
        expected.push(bridges[(state as usize) % 3].clone());
    }
    assert_eq!(pick_bridges(&bridges, 4, 42), expected);
    assert!(pick_bridges(&bridges, 0, 42).is_empty());
    assert!(pick_bridges(&[], 3, 42).is_empty());
    assert_eq!(pick_bridges(&bridges, 2, 0), pick_bridges(&bridges, 2, 1));
}

#[test]
fn error_reports_carry_the_reason() {
    let r = error_report("A", "B", 7, "quote returned no sub_routes".to_string());
    assert_eq!(r.mode, "one-leg");
    assert_eq!(r.amount_in, 7);
    assert!(r.hops.is_empty() && r.chain_path_out.is_none() && r.gap_bps.is_none());
    assert_eq!(r.error.as_deref(), Some("quote returned no sub_routes"));
}

#[test]
fn sub_routes_must_be_complete() {
    assert!(sub_route_complete(2, 2, 3, 2, 2));
    assert!(!sub_route_complete(0, 0, 1, 0, 0));
    assert!(!sub_route_complete(2, 2, 2, 2, 2));
    assert!(!sub_route_complete(2, 1, 3, 2, 2));
    assert!(!sub_route_complete(2, 2, 3, 2, 1));
}

#[test]
fn hop_walk_chains_outputs_and_reports_the_path() {
    let mut walk = HopWalk::new(100_000_000);
    assert!(walk.record_hop(0, "soroswap".into(), "P0".into(), Some(50_000_000)));
    assert!(walk.record_hop(1, "aquarius".into(), "P1".into(), Some(99_800_000)));
    let report = walk.finish("A", "C", 100_000_000, 10);
    assert_eq!(report.chain_path_out, Some(99_800_000));
    assert_eq!(report.gap_bps, Some(20));
    assert_eq!(report.hops.len(), 2);
    assert_eq!(report.hops[0].amount_in, 100_000_000);
    assert_eq!(report.hops[0].local_out, 0);
    assert_eq!(report.hops[0].gap_bps, None);
    assert_eq!(report.hops[1].amount_in, 50_000_000);
    assert_eq!(report.hops[1].local_out, 100_000_000);
    assert_eq!(report.first_bad_hop, Some(1));
    assert!(report.error.is_none());
}

#[test]
fn hop_walk_stops_on_a_dry_hop() {
    let mut walk = HopWalk::new(1_000);
    assert!(walk.record_hop(0, "soroswap".into(), "P0".into(), Some(500)));
    assert!(!walk.record_hop(1, "phoenix".into(), "P1".into(), Some(0)));
    let report = walk.finish("A", "C", 990, 10);
    assert_eq!(report.chain_path_out, None);
    assert_eq!(report.gap_bps, None);
    assert_eq!(report.hops.len(), 2);
    assert_eq!(report.hops[1].local_out, 0);
    assert_eq!(report.first_bad_hop, None);
    let mut walk = HopWalk::new(1_000);
    assert!(!walk.record_hop(0, "soroswap".into(), "P0".into(), None));
    assert_eq!(walk.finish("A", "C", 990, 10).first_bad_hop, Some(0));
}
