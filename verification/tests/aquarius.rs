use lumagg::aquarius::{quote_aquarius_pool, quote_cached_pool, AquariusAdapter, AquariusPoolQuoteState, PairReserves, PoolMeta};

#[test]
fn three_token_stableswap_matches_router_test_vector() {
    let reserves = vec![100_0000000u128, 100_0000000, 100_0000000];
    let out = AquariusAdapter::stable_swap_quote_multi(&reserves, 0, 1, 97_0000000, 30, 6750);
    assert_eq!(out, 96_5081326, "3-token stableswap token0->token1 should match on-chain router test");
}

#[test]
fn three_token_stableswap_quote_via_pool_state() {
    let t0 = "TOKEN_A";
    let t1 = "TOKEN_B";
    let t2 = "TOKEN_C";
    let state = AquariusPoolQuoteState {
        pool_address: "pool3".into(),
        tokens: vec![t0.into(), t1.into(), t2.into()],
        reserves: vec![100_0000000, 100_0000000, 100_0000000],
        fee_bps: 30,
        is_stable: true,
        amp: 6750,
    };
    let hop01 = quote_aquarius_pool(&state, t0, t1, 97_0000000).expect("hop 0->1").amount_out;
    assert_eq!(hop01, 96_5081326);

    let hop02 = quote_aquarius_pool(&state, t0, t2, 10_0000000).expect("hop 0->2").amount_out;
    assert!(hop02 > 9_9000000 && hop02 < 10_0000000, "hop02={hop02}");
}

#[test]
fn usdc_to_xlm_via_cbvdrt_uses_stable_then_volatile() {
    let usdc = "CCW67TSZV3SSS2HXMBQ5JFGCKJNXKZM7UQUWUZPUTHXSTZLEO7SJMI75";
    let cbvd = "CBVDRT5474OBUEXF5MJB3UGQ5CG7CKGCAH5M4RV5NBCDJUBZ5OXHJLOU";
    let xlm = "CAS3J7GYLGXMF6TDJBBYYSE3HQ6BBSMLNUQ34T6TZMYMW2EVH34XOWMA";

    let hop1 = quote_aquarius_pool(
        &AquariusPoolQuoteState {
            pool_address: "CBRXOYKXPQI4EEA6KA35TUIYN5OJLNWMTIVDOMNOIL2BG5Y5LEDHUU7V".into(),
            tokens: vec![cbvd.into(), usdc.into()],
            reserves: vec![2092266080, 49103367],
            fee_bps: 30,
            is_stable: true,
            amp: 1500,
        },
        usdc,
        cbvd,
        1_480_000,
    )
    .expect("hop1 stable quote")
    .amount_out;

    let hop2 = quote_aquarius_pool(
        &AquariusPoolQuoteState {
            pool_address: "CDYLKM3DGH5A6QA6QOIITPKG7C4DTZMS2HF75XURORACBHCR6AOE3K33".into(),
            tokens: vec![xlm.into(), cbvd.into()],
            reserves: vec![80963820202, 13678306977],
            fee_bps: 30,
            is_stable: false,
            amp: 100,
        },
        cbvd,
        xlm,
        hop1,
    )
    .expect("hop2 volatile quote")
    .amount_out;

    assert!(hop2 > 9_000_000 && hop2 < 11_000_000, "expected ~1 XLM out, got {hop2}");
}

#[test]
fn cached_quote_prefers_full_pool_metadata() {
    let meta = PoolMeta {
        is_stable: true,
        fee_bps: 30,
        all_tokens: vec!["TOKEN_A".into(), "TOKEN_B".into(), "TOKEN_C".into()],
        all_reserves: vec![100_0000000, 100_0000000, 100_0000000],
        amp: 6750,
    };
    let pair = PairReserves {
        token_a: "TOKEN_A".into(),
        token_b: "TOKEN_B".into(),
        reserve_a: Some(1),
        reserve_b: Some(1),
    };
    let q = quote_cached_pool(&meta, Some(&pair), "pool3", "TOKEN_A", "TOKEN_B", 97_0000000).unwrap();
    assert_eq!(q.amount_out, 96_5081326);
}

#[test]
fn cached_quote_falls_back_to_pair_reserves() {
    let meta = PoolMeta::unknown();
    let pair = PairReserves {
        token_a: "TOKEN_A".into(),
        token_b: "TOKEN_B".into(),
        reserve_a: Some(10_000),
        reserve_b: Some(20_000),
    };
    // in after fee = 1000 * 9970 / 10000 = 997; out = 997 * 10000 / (20000 + 997) = 474
    let q = quote_cached_pool(&meta, Some(&pair), "pool", "TOKEN_B", "TOKEN_A", 1000).unwrap();
    assert_eq!(q.amount_out, 474);
    assert_eq!(q.fee_bps, 30);
    assert_eq!(q.price_impact_bps, 250);
    assert!(quote_cached_pool(&meta, Some(&pair), "pool", "TOKEN_C", "TOKEN_A", 1000).is_none());
    assert!(quote_cached_pool(&meta, None, "pool", "TOKEN_A", "TOKEN_B", 1000).is_none());
    let empty = PairReserves { reserve_a: None, ..pair };
    assert!(quote_cached_pool(&meta, Some(&empty), "pool", "TOKEN_A", "TOKEN_B", 1000).is_none());
}
