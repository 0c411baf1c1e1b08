use lumagg::prepare::{
    parse_base_received_from_sim_error, parse_bridge_received_from_sim_error, vault_allowance_expiration,
    LatestLedgerCache, VAULT_ALLOWANCE_LEDGER_CUSHION,
};

#[test]
fn sums_bridge_transfers_to_aggregator() {
    let log = r#"   13: [Failed Contract Event] contract:CCW67TSZV3SSS2HXMBQ5JFGCKJNXKZM7UQUWUZPUTHXSTZLEO7SJMI75, topics:[transfer, POOL, CC6QAV7JEG5MYRSPO5Z65E5G2M4ZB64BEG2ZXIZXL55TQT35JDI2LC6K, "USDC"], data:18252396"#;
    let agg = "CC6QAV7JEG5MYRSPO5Z65E5G2M4ZB64BEG2ZXIZXL55TQT35JDI2LC6K";
    let bridge = "CCW67TSZV3SSS2HXMBQ5JFGCKJNXKZM7UQUWUZPUTHXSTZLEO7SJMI75";
    assert_eq!(parse_bridge_received_from_sim_error(log, bridge, agg), Some(18_252_396));
}

#[test]
fn parses_production_usdc_leg_out_mismatch() {
    let log = r#"   9: [Failed Contract Event (not emitted)] contract:CCW67TSZV3SSS2HXMBQ5JFGCKJNXKZM7UQUWUZPUTHXSTZLEO7SJMI75, topics:[transfer, CBBMQBNHB2FYVZYV7VNHOJHUMTFJLR4PUMRVQYNW6RHIKZO2NQMIBUCV, CC6QAV7JEG5MYRSPO5Z65E5G2M4ZB64BEG2ZXIZXL55TQT35JDI2LC6K, "USDC:GA5ZSEJYB37JRC5AVCIA5MOP4RHTM335X2KGX3IHOJAPP5RE34K4KZVN"], data:1014904660"#;
    let agg = "CC6QAV7JEG5MYRSPO5Z65E5G2M4ZB64BEG2ZXIZXL55TQT35JDI2LC6K";
    let bridge = "CCW67TSZV3SSS2HXMBQ5JFGCKJNXKZM7UQUWUZPUTHXSTZLEO7SJMI75";
    assert_eq!(parse_bridge_received_from_sim_error(log, bridge, agg), Some(1_014_904_660));
}

#[test]
fn dedupes_duplicate_transfer_lines_in_event_log() {
    let line = r#"   9: [Failed Contract Event (not emitted)] contract:CCW67TSZV3SSS2HXMBQ5JFGCKJNXKZM7UQUWUZPUTHXSTZLEO7SJMI75, topics:[transfer, POOL, CC6QAV7JEG5MYRSPO5Z65E5G2M4ZB64BEG2ZXIZXL55TQT35JDI2LC6K, "USDC"], data:18372538"#;
    let log = format!("{line}\n{line}");
    let agg = "CC6QAV7JEG5MYRSPO5Z65E5G2M4ZB64BEG2ZXIZXL55TQT35JDI2LC6K";
    let bridge = "CCW67TSZV3SSS2HXMBQ5JFGCKJNXKZM7UQUWUZPUTHXSTZLEO7SJMI75";
    assert_eq!(parse_bridge_received_from_sim_error(&log, bridge, agg), Some(18_372_538));
}

#[test]
fn falls_back_to_swap_return_when_no_transfer_line() {
    let log = r#"   4: [Failed Diagnostic Event (not emitted)] contract:CBBMQBNHB2FYVZYV7VNHOJHUMTFJLR4PUMRVQYNW6RHIKZO2NQMIBUCV, topics:[fn_return, swap], data:18372538"#;
    let agg = "CC6QAV7JEG5MYRSPO5Z65E5G2M4ZB64BEG2ZXIZXL55TQT35JDI2LC6K";
    let bridge = "CCW67TSZV3SSS2HXMBQ5JFGCKJNXKZM7UQUWUZPUTHXSTZLEO7SJMI75";
    assert_eq!(parse_bridge_received_from_sim_error(log, bridge, agg), Some(18_372_538));
}

#[test]
fn parses_base_out_excluding_caller_pull() {
    let log = r#"
   10: [Failed Contract Event] contract:CAS3J7GYLGXMF6TDJBBYYSE3HQ6BBSMLNUQ34T6TZMYMW2EVH34XOWMA, topics:[transfer, CCY2PXGMKNQHO7WNYXEWX76L2C5BH3JUW3RCATGUYKY7QQTRILBZIFWV, CC6QAV7JEG5MYRSPO5Z65E5G2M4ZB64BEG2ZXIZXL55TQT35JDI2LC6K, "native"], data:841208923
   16: [Failed Contract Event] contract:CAS3J7GYLGXMF6TDJBBYYSE3HQ6BBSMLNUQ34T6TZMYMW2EVH34XOWMA, topics:[transfer, GCMDWFAHD6PYI5SI2N2M6XINZDITECUV4XN7LYQGOWKQSIMQPRNK2DLN, CC6QAV7JEG5MYRSPO5Z65E5G2M4ZB64BEG2ZXIZXL55TQT35JDI2LC6K, "native"], data:1832045401
   32: [Failed Contract Event] contract:CAS3J7GYLGXMF6TDJBBYYSE3HQ6BBSMLNUQ34T6TZMYMW2EVH34XOWMA, topics:[transfer, CA4HTZNY2RBZWEQE5GBMNREZMFRPAZSVJ6OGPC7T3VM7NHRJYFAVID2S, CC6QAV7JEG5MYRSPO5Z65E5G2M4ZB64BEG2ZXIZXL55TQT35JDI2LC6K, "native"], data:984439379
"#;
    let agg = "CC6QAV7JEG5MYRSPO5Z65E5G2M4ZB64BEG2ZXIZXL55TQT35JDI2LC6K";
    let base = "CAS3J7GYLGXMF6TDJBBYYSE3HQ6BBSMLNUQ34T6TZMYMW2EVH34XOWMA";
    let caller = "GCMDWFAHD6PYI5SI2N2M6XINZDITECUV4XN7LYQGOWKQSIMQPRNK2DLN";
    assert_eq!(parse_base_received_from_sim_error(log, base, agg, caller), Some(841_208_923 + 984_439_379));
}

#[test]
fn latest_ledger_cache_hits_within_ttl() {
    let mut cache = LatestLedgerCache::new();
    assert!(cache.cached().is_none());
    cache.store(63_500_000);
    assert_eq!(cache.cached(), Some(63_500_000));
    assert_eq!(vault_allowance_expiration(63_500_000), 63_500_000 + VAULT_ALLOWANCE_LEDGER_CUSHION);
}

#[test]
fn latest_ledger_cache_expires_after_ttl() {
    let mut cache = LatestLedgerCache::new();
    cache.store(7);
    assert_eq!(cache.cached_at(0), Some(7));
    assert_eq!(cache.cached_at(1_000_000_000), None);
    assert_eq!(vault_allowance_expiration(u32::MAX - 5), u32::MAX);
}

#[test]
fn parsers_find_nothing_in_unrelated_logs() {
    let agg = "AGG";
    assert_eq!(parse_bridge_received_from_sim_error("", "TOKEN", agg), None);
    assert_eq!(
        parse_bridge_received_from_sim_error("contract:TOKEN, topics:[transfer, A, OTHER], data:5", "TOKEN", agg),
        None
    );
    assert_eq!(
        parse_base_received_from_sim_error("contract:TOKEN, topics:[transfer, A, AGG], data:x5", "TOKEN", agg, "C"),
        None
    );
    assert_eq!(
        parse_base_received_from_sim_error(
            "contract:TOKEN, topics:[transfer, A, AGG], data:5\r\ncontract:TOKEN, topics:[transfer,B ,  AGG ], data:7",
            "TOKEN",
            agg,
            "C"
        ),
        Some(12)
    );
    assert_eq!(
        parse_bridge_received_from_sim_error(
            "topics:[fn_return, swap], data:3\ntopics:[fn_return, swap], data:9\ntopics:[fn_return, swap], data:",
            "TOKEN",
            agg
        ),
        Some(9)
    );
}
