use lumagg::execute::submit_decision;
use lumagg::stats::ArbStats;
use lumagg::execute::is_structural_sim_failure;
use lumagg::prepare::parse_base_received_from_sim_error;

#[test]
fn detects_invalid_action() {
    assert!(is_structural_sim_failure("simulation missing i128 return value: HostError: Error(WasmVm, InvalidAction)"));
}

#[test]
fn detects_footprint() {
    assert!(is_structural_sim_failure("trying to access contract data key outside of the footprint"));
}

#[test]
fn ignores_economic_failures() {
    assert!(!is_structural_sim_failure("Error(Contract, #1) assert min_amount_out not met"));
}

#[test]
fn production_invalid_action_can_still_be_economic() {
    let log = r#"
   2: [Failed Diagnostic Event (not emitted)] contract:CC6QAV7JEG5MYRSPO5Z65E5G2M4ZB64BEG2ZXIZXL55TQT35JDI2LC6K, topics:[error, Error(WasmVm, InvalidAction)], data:["VM call trapped: UnreachableCodeReached", round_trip_swap]
   10: [Failed Contract Event (not emitted)] contract:CAS3J7GYLGXMF6TDJBBYYSE3HQ6BBSMLNUQ34T6TZMYMW2EVH34XOWMA, topics:[transfer, CBDRLPPJBF2LQNGEEGRBHNLFL5QCMKLKP5BUCQVX3HKRTXODHTXEQRZ6, CC6QAV7JEG5MYRSPO5Z65E5G2M4ZB64BEG2ZXIZXL55TQT35JDI2LC6K, "native"], data:99990273
   59: [Failed Contract Event (not emitted)] contract:CAS3J7GYLGXMF6TDJBBYYSE3HQ6BBSMLNUQ34T6TZMYMW2EVH34XOWMA, topics:[transfer, GCMDWFAHD6PYI5SI2N2M6XINZDITECUV4XN7LYQGOWKQSIMQPRNK2DLN, CC6QAV7JEG5MYRSPO5Z65E5G2M4ZB64BEG2ZXIZXL55TQT35JDI2LC6K, "native"], data:100000000
"#;
    let agg = "CC6QAV7JEG5MYRSPO5Z65E5G2M4ZB64BEG2ZXIZXL55TQT35JDI2LC6K";
    let base = "CAS3J7GYLGXMF6TDJBBYYSE3HQ6BBSMLNUQ34T6TZMYMW2EVH34XOWMA";
    let caller = "GCMDWFAHD6PYI5SI2N2M6XINZDITECUV4XN7LYQGOWKQSIMQPRNK2DLN";
    assert!(is_structural_sim_failure(log));
    assert_eq!(parse_base_received_from_sim_error(log, base, agg, caller), Some(99_990_273));
}

#[test]
fn structural_checks_are_case_insensitive_and_need_both_footprint_words() {
    assert!(is_structural_sim_failure("EXCEEDEDLIMIT on cpu"));
    assert!(is_structural_sim_failure("Footprint problem; host TRAPPED"));
    assert!(!is_structural_sim_failure("footprint mismatch"));
    assert!(!is_structural_sim_failure(""));
}

#[test]
fn prepared_transactions_are_submitted_only_when_simulated_and_live() {
    let mut stats = ArbStats::new();
    assert!(!submit_decision(&mut stats, false, false));
    assert!(!submit_decision(&mut stats, true, true));
    assert!(submit_decision(&mut stats, true, false));
    assert_eq!(stats.txs_prepared, 3);
    assert_eq!(stats.txs_sim_rejected, 1);
    assert_eq!(stats.txs_dry_run, 1);
}
