use lumagg::bridge::{LegQuote, SubOrder};
use lumagg::invoke::{prepare_round_trip_amounts, source_to_dex_type, ArbSwapStep};
use lumagg::call_args::{round_trip_invocation, CallValue};
use lumagg::round_trip::{dex_enum_name, round_trip_call, BuildError, CallStep, CallSubRoute, RoundTripCall};
use lumagg::simulation::{simulation_target, EnvelopeError};

const XLM: &str = "CAS3J7GYLGXMF6TDJBBYYSE3HQ6BBSMLNUQ34T6TZMYMW2EVH34XOWMA";
const USDC: &str = "CCW67TSZV3SSS2HXMBQ5JFGCKJNXKZM7UQUWUZPUTHXSTZLEO7SJMI75";
const POOL: &str = "CA4HEQTL2WPEUYKYKCDOHCDNIV4QHNJ7EL4J4NQ6VADP7SYHVRYZ7AW2";
const USER: &str = "GA5ZSEJYB37JRC5AVCIA5MOP4RHTM335X2KGX3IHOJAPP5RE34K4KZVN";

fn sub(amount_in: u128, out: u128) -> SubOrder {
    SubOrder { sources: vec!["soroswap".into()], pool_addresses: vec![POOL.into()], amount_in, expected_amount_out: out }
}

fn step(dex_type: &str, pool: &str, token_in: &str, token_out: &str) -> ArbSwapStep {
    ArbSwapStep {
        venue_type: dex_type.into(),
        dex_type: dex_type.into(),
        pool_address: pool.into(),
        token_in: token_in.into(),
        token_out: token_out.into(),
        in_idx: 0,
        out_idx: 1,
    }
}

fn leg(subs: Vec<SubOrder>, steps: Vec<Vec<ArbSwapStep>>) -> LegQuote {
    LegQuote {
        sub_orders: subs,
        total_amount_in: 0,
        total_expected_out: 0,
        is_split: false,
        step_sets: steps,
        minimum_out: 0,
        snapshot_age_ms: None,
        pool_state_age_ms: None,
    }
}

#[test]
fn leg_out_amounts_sum_to_the_input() {
    let (out, back) = prepare_round_trip_amounts(1, &[1, 1, 1], &[5, 6, 7], &[0, 9, 3]);
    assert_eq!(out.iter().sum::<u128>(), 1);
    assert_eq!(back, vec![5, 6, 7]);
    let (out, _) = prepare_round_trip_amounts(1_000, &[300, 200], &[1, 1], &[1]);
    assert_eq!(out, vec![600, 400]);
    let (out, _) = prepare_round_trip_amounts(1_000, &[0, 0], &[0, 0], &[]);
    assert_eq!(out, vec![0, 1_000]);
    let (out, back) = prepare_round_trip_amounts(500, &[500], &[7], &[0, 4]);
    assert_eq!(out, vec![500]);
    assert_eq!(back, vec![1, 4]);
}

#[test]
fn round_trip_call_decodes_and_prepares() {
    let out = leg(vec![sub(300, 10), sub(200, 12)], vec![
        vec![step("soroswap", POOL, XLM, USDC)],
        vec![step("aquarius", POOL, XLM, USDC)],
    ]);
    let back = leg(vec![sub(9, 0), sub(9, 0)], vec![
        vec![step("phoenix", POOL, USDC, XLM)],
        vec![step("comet", POOL, USDC, XLM)],
    ]);
    let call = round_trip_call(None, XLM, USER, XLM, USDC, 1_000, &out, &back, 1_001).unwrap();
    assert!(call.vault.is_none());
    assert_eq!(call.leg_out.len(), 2);
    assert_eq!(call.leg_out[0].amount_in + call.leg_out[1].amount_in, 1_000);
    assert_eq!(call.leg_back[0].amount_in, 10);
    assert_eq!(call.leg_back[1].amount_in, 12);
    assert_eq!(call.leg_out[1].steps[0].dex_enum, "Aquarius");
    assert_eq!(call.leg_back[1].steps[0].dex_enum, "CometDex");
    assert_eq!(call.min_amount_out, 1_001);
}

#[test]
fn round_trip_call_errors() {
    let out = leg(vec![sub(1, 1)], vec![vec![step("soroswap", POOL, XLM, USDC)]]);
    let back = leg(vec![sub(1, 1)], vec![vec![step("soroswap", POOL, USDC, XLM)]]);
    let empty = leg(vec![], vec![]);
    assert_eq!(round_trip_call(None, XLM, USER, XLM, USDC, 0, &out, &back, 5).unwrap_err(), BuildError::NonPositiveAmount);
    assert_eq!(round_trip_call(None, XLM, USER, XLM, USDC, 5, &out, &back, 4).unwrap_err(), BuildError::MinBelowPrincipal);
    assert_eq!(round_trip_call(None, XLM, USER, XLM, USDC, 5, &empty, &back, 5).unwrap_err(), BuildError::EmptyLeg);
    assert_eq!(
        round_trip_call(None, XLM, "GBAD", XLM, USDC, 5, &out, &back, 5).unwrap_err(),
        BuildError::InvalidAccount { text: "GBAD".into() }
    );
    assert_eq!(
        round_trip_call(Some("CNOPE"), XLM, USER, XLM, USDC, 5, &out, &back, 5).unwrap_err(),
        BuildError::InvalidContract { text: "CNOPE".into() }
    );
    let odd = leg(vec![sub(1, 1)], vec![vec![step("orderbook", POOL, XLM, USDC)]]);
    assert_eq!(
        round_trip_call(None, XLM, USER, XLM, USDC, 5, &odd, &back, 5).unwrap_err(),
        BuildError::UnknownDexType { dex_type: "orderbook".into() }
    );
    let uneven = leg(vec![sub(1, 1), sub(1, 1)], vec![vec![step("soroswap", POOL, XLM, USDC)]]);
    assert_eq!(
        round_trip_call(None, XLM, USER, XLM, USDC, 5, &uneven, &back, 5).unwrap_err(),
        BuildError::SubRouteCountMismatch { sub_orders: 2, step_sets: 1 }
    );
    let call = round_trip_call(Some(POOL), XLM, USER, XLM, USDC, 5, &out, &back, 5).unwrap();
    assert!(call.vault.is_some());
}

#[test]
fn dex_enum_names() {
    assert_eq!(dex_enum_name("soroswap"), Some("SoroswapPair"));
    assert_eq!(dex_enum_name("sushi"), Some("Sushi"));
    assert_eq!(dex_enum_name("other"), None);
}

#[test]
fn unsupported_source_message() {
    let e = source_to_dex_type("orderbook").unwrap_err();
    assert_eq!(e.message(), "unsupported dex source: orderbook");
}

#[test]
fn simulation_targets() {
    assert!(simulation_target(XLM, "get_tokens_sets_count").is_ok());
    assert_eq!(simulation_target("nope", "f"), Err(EnvelopeError::InvalidContractAddress));
    assert_eq!(simulation_target(XLM, &"x".repeat(33)), Err(EnvelopeError::InvalidFunctionName));
}

#[test]
fn round_trip_invocation_lays_out_the_call() {
    let step = CallStep {
        pool: [1u8; 32],
        dex_enum: "Soroswap".to_string(),
        in_idx: 0,
        out_idx: 1,
        token_in: [2u8; 32],
        token_out: [3u8; 32],
    };
    let sub = CallSubRoute { amount_in: 500, steps: vec![step] };
    let call = RoundTripCall {
        vault: None,
        aggregator: [9u8; 32],
        caller: [8u8; 32],
        base: [2u8; 32],
        bridge: [3u8; 32],
        amount_in: -1,
        leg_out: vec![sub.clone()],
        leg_back: vec![sub],
        min_amount_out: (1i128 << 64) + 5,
    };
    let inv = round_trip_invocation(&call);
    assert_eq!(inv.contract, [9u8; 32]);
    assert_eq!(inv.function, "round_trip_swap");
    assert_eq!(inv.args.len(), 7);
    assert!(matches!(inv.args[0], CallValue::Account(k) if k == [8u8; 32]));
    assert!(matches!(inv.args[3], CallValue::I128 { hi: -1, lo: u64::MAX }));
    assert!(matches!(inv.args[6], CallValue::I128 { hi: 1, lo: 5 }));
    match &inv.args[4] {
        CallValue::List(subs) => match &subs[0] {
            CallValue::Entries(entries) => {
                assert_eq!(entries[0].0, "amount_in");
                assert!(matches!(entries[0].1, CallValue::I128 { hi: 0, lo: 500 }));
                assert_eq!(entries[1].0, "steps");
            },
            other => panic!("sub-route is a map, got {:?}", other),
        },
        other => panic!("leg is a list, got {:?}", other),
    }
    let with_vault = RoundTripCall { vault: Some([7u8; 32]), ..call };
    let inv = round_trip_invocation(&with_vault);
    assert_eq!(inv.contract, [7u8; 32]);
    assert_eq!(inv.function, "execute_round_trip");
    assert_eq!(inv.args.len(), 8);
    assert!(matches!(inv.args[1], CallValue::Contract(k) if k == [9u8; 32]));
}
