use lumagg::config::{build_enabled, execution_enabled, submit_enabled};
use lumagg::config::{parse_number, parse_u32_list, parse_url_list, quote_api_urls, split_list, ArbConfig, ConfigError};

fn vars(pairs: &[(&str, &str)]) -> Vec<(String, String)> {
    pairs.iter().map(|(k, v)| (k.to_string(), v.to_string())).collect()
}

#[test]
fn numbers_parse_as_std_does() {
    assert_eq!(parse_number("42", u128::MAX), Some(42));
    assert_eq!(parse_number("+7", u128::MAX), Some(7));
    assert_eq!(parse_number("", u128::MAX), None);
    assert_eq!(parse_number("+", u128::MAX), None);
    assert_eq!(parse_number("-1", u128::MAX), None);
    assert_eq!(parse_number(" 1", u128::MAX), None);
    assert_eq!(parse_number("4294967295", u32::MAX as u128), Some(4294967295));
    assert_eq!(parse_number("4294967296", u32::MAX as u128), None);
    assert_eq!(parse_number("99999999999999999999999999999999999999999", u128::MAX), None);
    assert_eq!(parse_number("12x", u128::MAX), None);
}

#[test]
fn lists_split_trim_and_drop_empty_items() {
    assert_eq!(split_list(" a, b ,,c,"), vec!["a", "b", "c"]);
    assert_eq!(split_list(""), Vec::<String>::new());
    assert_eq!(parse_url_list("http://x/ , http://y//,"), vec!["http://x", "http://y"]);
    assert_eq!(parse_url_list("/"), vec![""]);
    assert_eq!(parse_u32_list("1, 2,x,,3"), vec![1, 2, 3]);
}

#[test]
fn quote_urls_fall_back_in_order() {
    assert_eq!(quote_api_urls(&vars(&[("ARB_QUOTE_API_URLS", "http://a/,http://b")])), vec!["http://a", "http://b"]);
    assert_eq!(
        quote_api_urls(&vars(&[("ARB_QUOTE_API_URLS", " , "), ("QUOTE_API_URL", " http://c/ ")])),
        vec!["http://c"]
    );
    assert_eq!(
        quote_api_urls(&vars(&[("LUMAGG_API_URL", "http://d,http://e/")])),
        vec!["http://d", "http://e"]
    );
    assert_eq!(
        quote_api_urls(&vars(&[])),
        vec!["http://127.0.0.1:3100", "http://127.0.0.1:3101", "http://127.0.0.1:3102", "http://127.0.0.1:3103"]
    );
}

#[test]
fn config_needs_bridge_tokens() {
    assert_eq!(ArbConfig::from_vars(&vars(&[])).unwrap_err(), ConfigError::MissingBridgeTokens);
    assert_eq!(
        ArbConfig::from_vars(&vars(&[("ARB_BRIDGE_TOKENS", " , ")])).unwrap_err(),
        ConfigError::MissingBridgeTokens
    );
}

#[test]
fn config_defaults_and_overrides() {
    let c = ArbConfig::from_vars(&vars(&[("ARB_BRIDGE_TOKENS", "USDC, AQUA")])).unwrap();
    assert_eq!(c.bridge_tokens, vec!["USDC", "AQUA"]);
    assert_eq!(c.base_tokens.len(), 2);
    assert_eq!(c.rpc_url, "https://soroban-rpc.mainnet.stellar.gateway.fm");
    assert_eq!(c.caller_indices, vec![0]);
    assert_eq!(c.probe_amount_in, 100_000_000);
    assert_eq!(c.min_amount_in, 100_000_000);
    assert_eq!(c.min_profit, 120_000);
    assert_eq!(c.max_amount_in, 18_000_000_000);
    assert_eq!(c.scan_interval_ms, 500);
    assert_eq!(c.worker_count, 4);
    assert!(c.optimize_amount && !c.build_tx && !c.submit_tx && c.dry_run && !c.poll_tx);
    assert_eq!(c.aggregator_contract, None);

    let c = ArbConfig::from_vars(&vars(&[
        ("ARB_BRIDGE_TOKENS", "X"),
        ("ARB_PROBE_AMOUNT_IN", "5"),
        ("ARB_SCAN_INTERVAL_SECS", "3"),
        ("ARB_WORKER_COUNT", "0"),
        ("ARB_SUBMIT_TX", "TRUE"),
        ("ARB_AGGREGATOR_CONTRACT", ""),
        ("AGGREGATOR_CONTRACT", "CAGG"),
        ("ARB_CALLER_INDICES", "2,3"),
        ("ARB_SLIPPAGE_BPS", "bad"),
    ]))
    .unwrap();
    assert_eq!(c.min_amount_in, 5);
    assert_eq!(c.scan_interval_ms, 3000);
    assert_eq!(c.worker_count, 1);
    assert!(c.submit_tx && !c.dry_run);
    assert_eq!(c.aggregator_contract, None);
    assert_eq!(c.caller_indices, vec![2, 3]);
    assert_eq!(c.slippage_bps, 0);
    let c = ArbConfig::from_vars(&vars(&[("ARB_BRIDGE_TOKENS", "X"), ("AGGREGATOR_CONTRACT", "CAGG")])).unwrap();
    assert_eq!(c.aggregator_contract.as_deref(), Some("CAGG"));
}

#[test]
fn execution_gates_follow_the_flags() {
    let mut c = ArbConfig::from_vars(&vars(&[("ARB_BRIDGE_TOKENS", "X")])).unwrap();
    assert!(!execution_enabled(&c));
    c.build_tx = true;
    assert!(!execution_enabled(&c));
    c.aggregator_contract = Some("CAGG".into());
    assert!(execution_enabled(&c));
    assert!(!build_enabled(&c, 0));
    assert!(build_enabled(&c, 2));
    assert!(!submit_enabled(&c, 2));
    c.submit_tx = true;
    assert!(submit_enabled(&c, 2));
    assert!(!submit_enabled(&c, 0));
}
