use lumagg::quote_client::{
    leg_quote_from_api, parse_u128_field, quote_api_base_urls, QuoteApiData, QuoteApiError, QuoteApiSubRoute,
};

fn sample_sub_route() -> QuoteApiSubRoute {
    QuoteApiSubRoute {
        source: "soroswap".into(),
        path: vec![
            "CAS3J7GYLGXMF6TDJBBYYSE3HQ6BBSMLNUQ34T6TZMYMW2EVH34XOWMA".into(),
            "CCW67TSZV3SSS2HXMBQ5JFGCKJNXKZM7UQUWUZPUTHXSTZLEO7SJMI75".into(),
        ],
        pool_addresses: vec!["POOL123".into()],
        dex_types: vec!["soroswap".into()],
        in_indices: vec![0],
        out_indices: vec![1],
        amount_in: "1000000000".into(),
        amount_out: "1001000000".into(),
    }
}

fn sample_data() -> QuoteApiData {
    QuoteApiData {
        amount_in: "1000000000".into(),
        expected_output: "1001000000".into(),
        minimum_output: "1000500000".into(),
        is_split: false,
        compute_time_ms: 3,
        sub_routes: vec![sample_sub_route()],
    }
}

#[test]
fn parses_api_sub_route() {
    let leg = leg_quote_from_api(sample_data()).unwrap();
    assert_eq!(leg.total_amount_in, 1_000_000_000);
    assert_eq!(leg.step_sets.len(), 1);
    assert_eq!(leg.step_sets[0][0].in_idx, 0);
}

#[test]
fn api_leg_carries_totals_orders_and_steps() {
    let leg = leg_quote_from_api(sample_data()).unwrap();
    assert_eq!(leg.total_expected_out, 1_001_000_000);
    assert_eq!(leg.minimum_out, 1_000_500_000);
    assert_eq!(leg.sub_orders.len(), 1);
    assert_eq!(leg.sub_orders[0].expected_amount_out, 1_001_000_000);
    assert_eq!(leg.sub_orders[0].pool_addresses, vec!["POOL123".to_string()]);
    let step = &leg.step_sets[0][0];
    assert_eq!(step.venue_type, "soroswap");
    assert_eq!(step.dex_type, "soroswap");
    assert_eq!(step.token_out, "CCW67TSZV3SSS2HXMBQ5JFGCKJNXKZM7UQUWUZPUTHXSTZLEO7SJMI75");
    assert_eq!(step.out_idx, 1);
}

#[test]
fn clmm_hops_route_through_aquarius() {
    let mut data = sample_data();
    data.sub_routes[0].dex_types = vec!["aquarius_clmm".into()];
    let leg = leg_quote_from_api(data).unwrap();
    assert_eq!(leg.step_sets[0][0].venue_type, "aquarius_clmm");
    assert_eq!(leg.step_sets[0][0].dex_type, "aquarius");
}

#[test]
fn api_errors_name_the_first_problem() {
    let mut data = sample_data();
    data.sub_routes.clear();
    assert_eq!(leg_quote_from_api(data).unwrap_err(), QuoteApiError::EmptySubRoutes);

    let mut data = sample_data();
    data.sub_routes[0].path.push("EXTRA".into());
    assert_eq!(leg_quote_from_api(data).unwrap_err(), QuoteApiError::PathLength { path: 3, hops: 1 });

    let mut data = sample_data();
    data.sub_routes[0].in_indices.clear();
    assert_eq!(leg_quote_from_api(data).unwrap_err(), QuoteApiError::HopMetadataMismatch);

    let mut data = sample_data();
    data.sub_routes[0].amount_out = "1.5".into();
    assert_eq!(
        leg_quote_from_api(data).unwrap_err(),
        QuoteApiError::InvalidAmount { field: "sub_route.amount_out".into(), raw: "1.5".into() }
    );

    let mut data = sample_data();
    data.sub_routes[0].dex_types = vec!["orderbook".into()];
    assert_eq!(
        leg_quote_from_api(data).unwrap_err(),
        QuoteApiError::UnsupportedSource { source: "orderbook".into() }
    );

    let mut data = sample_data();
    data.minimum_output = "-1".into();
    assert_eq!(
        leg_quote_from_api(data).unwrap_err(),
        QuoteApiError::InvalidAmount { field: "minimum_output".into(), raw: "-1".into() }
    );
}

#[test]
fn amount_fields_parse_as_u128() {
    assert_eq!(parse_u128_field("x", "340282366920938463463374607431768211455"), Ok(u128::MAX));
    assert!(parse_u128_field("x", "340282366920938463463374607431768211456").is_err());
}

#[test]
fn base_urls_drop_trailing_slashes_and_default_to_local() {
    assert_eq!(quote_api_base_urls(&vec![]), vec!["http://127.0.0.1:3100".to_string()]);
    assert_eq!(
        quote_api_base_urls(&vec!["http://a:1//".to_string(), "http://b:2".to_string()]),
        vec!["http://a:1".to_string(), "http://b:2".to_string()]
    );
}
