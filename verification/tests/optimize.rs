use lumagg::bridge::{LegQuote, RoundTripQuote};
use lumagg::optimize::{build_candidate_inputs, optimize_round_trip};

/// The rounded log-spaced sizes strictly between the endpoints, as the
/// scanner computes them in floating point.
fn interior_points(min_in: u128, max_in: u128, sample_count: usize) -> Vec<u128> {
    if sample_count < 3 {
        return Vec::new();
    }
    let log_min = (min_in as f64).ln();
    let log_max = (max_in as f64).ln();
    let den = (sample_count - 1) as f64;
    (1..sample_count - 1)
        .map(|i| {
            let t = i as f64 / den;
            (log_min + (log_max - log_min) * t).exp().round() as u128
        })
        .collect()
}

fn candidates(min_in: u128, max_in: u128, sample_count: usize) -> Vec<u128> {
    build_candidate_inputs(min_in, max_in, sample_count, &interior_points(min_in, max_in, sample_count))
}

#[test]
fn candidate_inputs_cover_range() {
    let v = candidates(100, 1000, 5);
    assert_eq!(v.first(), Some(&100));
    assert_eq!(v.last(), Some(&1000));
    assert!(v.len() >= 2);
}

#[test]
fn candidate_inputs_are_log_spaced() {
    // 10 → 500 XLM, 10 samples: denser below ~200 than linear would be.
    let min_in = 100_000_000u128;
    let max_in = 5_000_000_000u128;
    let v = candidates(min_in, max_in, 10);
    assert_eq!(v.first(), Some(&min_in));
    assert_eq!(v.last(), Some(&max_in));
    assert_eq!(v.len(), 10);
    // Midpoint by index should be well below linear midpoint (255 XLM).
    let mid = v[4] as f64 / 1e7;
    assert!(mid < 100.0, "expected log-mid < 100 XLM, got {mid}");
    assert!(mid > 40.0, "expected log-mid > 40 XLM, got {mid}");
}

#[test]
fn candidate_inputs_degenerate_ranges() {
    assert_eq!(build_candidate_inputs(0, 10, 4, &[]), Vec::<u128>::new());
    assert_eq!(build_candidate_inputs(10, 5, 4, &[]), Vec::<u128>::new());
    assert_eq!(build_candidate_inputs(10, 50, 0, &[]), Vec::<u128>::new());
    assert_eq!(build_candidate_inputs(10, 50, 1, &[20]), vec![10]);
    assert_eq!(build_candidate_inputs(10, 10, 4, &[10, 10]), vec![10]);
}

#[test]
fn candidate_inputs_clamp_sort_and_dedup() {
    assert_eq!(build_candidate_inputs(10, 50, 6, &[70, 20, 3, 20]), vec![10, 20, 50]);
    assert_eq!(build_candidate_inputs(10, 50, 2, &[]), vec![10, 50]);
}

fn rt(amount_in: u128, amount_out: u128) -> RoundTripQuote {
    let leg = LegQuote {
        sub_orders: vec![],
        total_amount_in: 0,
        total_expected_out: 0,
        is_split: false,
        step_sets: vec![],
        minimum_out: 0,
        snapshot_age_ms: None,
        pool_state_age_ms: None,
    };
    RoundTripQuote {
        base: "A".into(),
        bridge: "B".into(),
        amount_in,
        amount_out,
        minimum_out: 0,
        leg_out: leg.clone(),
        leg_back: leg,
    }
}

#[test]
fn optimize_keeps_the_first_best_profit() {
    assert!(optimize_round_trip(vec![]).is_none());
    let best = optimize_round_trip(vec![rt(100, 90), rt(200, 230), rt(300, 330), rt(400, 405)]).unwrap();
    assert_eq!(best.amount_in, 200);
    let only_losses = optimize_round_trip(vec![rt(100, 90), rt(200, 150)]).unwrap();
    assert_eq!(only_losses.amount_in, 100);
}
