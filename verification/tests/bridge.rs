use lumagg::bridge::{back_leg_inputs, max_age, merge_back_legs, round_trip_from_legs, LegQuote, RoundTripQuote, SubOrder};
use lumagg::dedup::round_trip_dedup_key;
use lumagg::invoke::ArbSwapStep;

fn step(venue_type: &str, dex_type: &str, pool_address: &str) -> ArbSwapStep {
    ArbSwapStep {
        venue_type: venue_type.into(),
        dex_type: dex_type.into(),
        pool_address: pool_address.into(),
        token_in: "A".into(),
        token_out: "B".into(),
        in_idx: 0,
        out_idx: 1,
    }
}

fn empty_leg() -> LegQuote {
    LegQuote {
        sub_orders: vec![],
        total_amount_in: 0,
        total_expected_out: 0,
        is_split: false,
        step_sets: vec![],
        minimum_out: 0,
        snapshot_age_ms: None,
        pool_state_age_ms: None,
    }
}

fn leg_with_step(venue_type: &str, dex_type: &str, pool_address: &str) -> LegQuote {
    LegQuote { step_sets: vec![vec![step(venue_type, dex_type, pool_address)]], ..empty_leg() }
}

fn sub(sources: &[&str], pools: &[&str], out: u128) -> SubOrder {
    SubOrder {
        sources: sources.iter().map(|s| s.to_string()).collect(),
        pool_addresses: pools.iter().map(|s| s.to_string()).collect(),
        amount_in: 0,
        expected_amount_out: out,
    }
}

fn quote(leg_out: LegQuote, leg_back: LegQuote) -> RoundTripQuote {
    RoundTripQuote {
        base: "A".into(),
        bridge: "B".into(),
        amount_in: 0,
        amount_out: 0,
        minimum_out: 0,
        leg_out,
        leg_back,
    }
}

#[test]
fn pool_route_preserves_clmm_venue_label() {
    let quote = quote(
        leg_with_step("aquarius_clmm", "aquarius", "CLMM_POOL"),
        leg_with_step("aquarius", "aquarius", "XYK_POOL"),
    );

    assert_eq!(quote.pool_route_label(), "aquarius_clmm:CLMM_POOL || aquarius:XYK_POOL");
}

#[test]
fn pool_route_joins_steps_and_splits() {
    let out = LegQuote {
        step_sets: vec![
            vec![step("soroswap", "soroswap", "P1"), step("phoenix", "phoenix", "P2")],
            vec![step("comet", "comet", "P3")],
        ],
        ..empty_leg()
    };
    let q = quote(out, empty_leg());
    assert_eq!(q.pool_route_label(), "soroswap:P1 → phoenix:P2 || comet:P3 || unknown");
}

#[test]
fn venue_route_lists_each_venue_once() {
    let out = LegQuote {
        step_sets: vec![
            vec![step("soroswap", "soroswap", "P1"), step("aquarius_clmm", "aquarius", "P2")],
            vec![step("soroswap", "soroswap", "P3"), step("aquarius", "aquarius", "P4")],
        ],
        ..empty_leg()
    };
    let q = quote(out, empty_leg());
    assert_eq!(q.venue_route_label(), "soroswap+aquarius → unknown");
}

#[test]
fn route_label_names_the_round_trip() {
    let q = quote(empty_leg(), empty_leg());
    assert_eq!(q.route_label(), "A → B → A");
}

#[test]
fn profit_is_zero_on_a_loss() {
    let mut q = quote(empty_leg(), empty_leg());
    q.amount_in = 100;
    q.amount_out = 130;
    assert_eq!(q.profit(), 30);
    q.amount_out = 70;
    assert_eq!(q.profit(), 0);
}

#[test]
fn ages_take_the_older_leg() {
    assert_eq!(max_age(Some(5), Some(9)), Some(9));
    assert_eq!(max_age(Some(5), None), Some(5));
    assert_eq!(max_age(None, Some(7)), Some(7));
    assert_eq!(max_age(None, None), None);
    let q = quote(
        LegQuote { snapshot_age_ms: Some(40), pool_state_age_ms: None, ..empty_leg() },
        LegQuote { snapshot_age_ms: Some(12), pool_state_age_ms: Some(3), ..empty_leg() },
    );
    assert_eq!(q.quote_snapshot_age_ms(), Some(40));
    assert_eq!(q.pool_state_age_ms(), Some(3));
}

#[test]
fn back_leg_inputs_follow_the_split() {
    let single = LegQuote { sub_orders: vec![sub(&["soroswap"], &["P1"], 500)], total_expected_out: 500, ..empty_leg() };
    assert_eq!(back_leg_inputs(&single), Some(vec![500]));

    let split = LegQuote {
        sub_orders: vec![sub(&["soroswap"], &["P1"], 300), sub(&["phoenix"], &["P2"], 200)],
        step_sets: vec![vec![step("soroswap", "soroswap", "P1")], vec![step("phoenix", "phoenix", "P2")]],
        total_expected_out: 500,
        ..empty_leg()
    };
    assert_eq!(back_leg_inputs(&split), Some(vec![300, 200]));

    let dry = LegQuote {
        sub_orders: vec![sub(&["soroswap"], &["P1"], 300), sub(&["phoenix"], &["P2"], 0)],
        step_sets: vec![vec![], vec![]],
        ..empty_leg()
    };
    assert_eq!(back_leg_inputs(&dry), None);
}

#[test]
fn merged_back_legs_sum_and_concatenate() {
    let out = LegQuote {
        sub_orders: vec![sub(&["soroswap"], &["P1"], 300), sub(&["phoenix"], &["P2"], 200)],
        total_expected_out: 500,
        snapshot_age_ms: Some(8),
        ..empty_leg()
    };
    let a = LegQuote {
        sub_orders: vec![sub(&["aquarius"], &["Q1"], 310)],
        step_sets: vec![vec![step("aquarius", "aquarius", "Q1")]],
        total_expected_out: 310,
        minimum_out: 305,
        ..empty_leg()
    };
    let b = LegQuote {
        sub_orders: vec![sub(&["comet"], &["Q2"], u128::MAX)],
        step_sets: vec![vec![step("comet", "comet", "Q2")]],
        total_expected_out: u128::MAX,
        minimum_out: 190,
        ..empty_leg()
    };
    let merged = merge_back_legs(&out, vec![a, b]);
    assert_eq!(merged.sub_orders.len(), 2);
    assert_eq!(merged.step_sets.len(), 2);
    assert_eq!(merged.step_sets[1][0].pool_address, "Q2");
    assert_eq!(merged.total_expected_out, u128::MAX);
    assert_eq!(merged.minimum_out, 495);
    assert_eq!(merged.total_amount_in, 500);
    assert!(merged.is_split);
    assert_eq!(merged.snapshot_age_ms, Some(8));

    let rt = round_trip_from_legs("A".into(), "B".into(), 1_000, out, merged);
    assert_eq!(rt.amount_out, u128::MAX);
    assert_eq!(rt.minimum_out, 495);
}

#[test]
fn dedup_key_spells_both_leg_routes() {
    let out = LegQuote {
        sub_orders: vec![sub(&["soroswap", "phoenix"], &["P1", "P2"], 1), sub(&["comet"], &["P3"], 1)],
        ..empty_leg()
    };
    let back = LegQuote { sub_orders: vec![sub(&["aquarius"], &["P4"], 1)], ..empty_leg() };
    let q = quote(out, back);
    assert_eq!(round_trip_dedup_key(&q), "A|soroswap,phoenix:P1>P2||comet:P3|aquarius:P4");
}
