use lumagg::trustlines::{
    balance_to_stroops, cleaner_step, close_targets, BalanceTextError, initial_cleaner_state, missing_trustlines, op_batches, sweep_payments,
    trustline_count, BalanceEntry, BalanceKind, CleanerAction, CleanerFinish, CleanerState, CreditAsset, PassStage,
    MAX_OPS_PER_TX,
};

fn credit(code: &str, issuer: &str, balance: i64) -> BalanceEntry {
    BalanceEntry {
        kind: BalanceKind::Credit(CreditAsset { code: code.to_string(), issuer: issuer.to_string() }),
        balance_stroops: balance,
    }
}

fn native(balance: i64) -> BalanceEntry {
    BalanceEntry { kind: BalanceKind::Native, balance_stroops: balance }
}

fn pool(balance: i64) -> BalanceEntry {
    BalanceEntry { kind: BalanceKind::PoolShare([7u8; 32]), balance_stroops: balance }
}

#[test]
fn missing_trustlines_lists_each_funded_asset_once() {
    let sources = vec![
        native(5),
        credit("USDC", "GA", 10),
        credit("AQUA", "GB", 0),
        credit("USDC", "GA", 3),
        credit("EURC", "GC", 1),
    ];
    let held = vec![CreditAsset { code: "EURC".to_string(), issuer: "GC".to_string() }];
    let missing = missing_trustlines(&sources, &held);
    assert_eq!(missing.len(), 1);
    assert_eq!(missing[0].code, "USDC");
    assert_eq!(missing[0].issuer, "GA");
}

#[test]
fn sweep_pays_positive_credit_balances_in_order() {
    let entries = vec![native(100), credit("A", "G1", 5), credit("B", "G2", 0), pool(9), credit("C", "G3", 7)];
    let payments = sweep_payments(&entries, true);
    assert_eq!(payments.len(), 2);
    assert_eq!((payments[0].asset.code.as_str(), payments[0].amount), ("A", 5));
    assert_eq!((payments[1].asset.code.as_str(), payments[1].amount), ("C", 7));
    assert!(sweep_payments(&entries, false).is_empty());
}

#[test]
fn close_targets_are_the_empty_trustlines() {
    let entries = vec![native(0), credit("A", "G1", 0), pool(0), pool(4), credit("B", "G2", 2)];
    assert_eq!(close_targets(&entries), vec![1, 2]);
    assert_eq!(trustline_count(&entries), 4);
}

#[test]
fn operations_go_out_fifty_to_a_transaction() {
    assert_eq!(op_batches(120, MAX_OPS_PER_TX), vec![(0, 50), (50, 100), (100, 120)]);
    assert_eq!(op_batches(50, MAX_OPS_PER_TX), vec![(0, 50)]);
    assert!(op_batches(0, MAX_OPS_PER_TX).is_empty());
}

#[test]
fn cleaner_sweeps_then_closes_then_finishes() {
    let start = initial_cleaner_state();
    let before = vec![native(10), credit("A", "G1", 5), credit("B", "G2", 0)];
    let (state, action) = cleaner_step(start, &before, true);
    assert_eq!(state, CleanerState { pass: 1, stage: PassStage::Close });
    match action {
        CleanerAction::Pay(p) => assert_eq!(p.len(), 1),
        other => panic!("expected payments, got {:?}", other),
    }
    let after_sweep = vec![native(10), credit("A", "G1", 0), credit("B", "G2", 0)];
    let (state, action) = cleaner_step(state, &after_sweep, true);
    assert_eq!(state, CleanerState { pass: 2, stage: PassStage::Sweep });
    match action {
        CleanerAction::Close { targets, batches } => {
            assert_eq!(targets, vec![1, 2]);
            assert_eq!(batches, vec![(0, 2)]);
        },
        other => panic!("expected closes, got {:?}", other),
    }
    let (_, action) = cleaner_step(state, &[native(10)], true);
    assert!(matches!(action, CleanerAction::Finish(CleanerFinish::Clean)));
}

#[test]
fn cleaner_keeps_trustlines_that_hold_a_balance() {
    let state = CleanerState { pass: 3, stage: PassStage::Close };
    let (next, action) = cleaner_step(state, &[native(1), pool(5)], true);
    assert_eq!(next, state);
    assert!(matches!(action, CleanerAction::Finish(CleanerFinish::KeptWithBalance(1))));
    let late = CleanerState { pass: 21, stage: PassStage::Sweep };
    let (_, action) = cleaner_step(late, &[credit("A", "G1", 0)], true);
    assert!(matches!(action, CleanerAction::Finish(CleanerFinish::PassesUsedUp)));
}

#[test]
fn balances_read_as_stroops() {
    assert_eq!(balance_to_stroops("12.3456789"), Ok(123_456_789));
    assert_eq!(balance_to_stroops("0"), Ok(0));
    assert_eq!(balance_to_stroops("  "), Ok(0));
    assert_eq!(balance_to_stroops(" 5 "), Ok(50_000_000));
    assert_eq!(balance_to_stroops("1.23456789"), Ok(12_345_678));
    assert_eq!(balance_to_stroops("0.0000001"), Ok(1));
    assert_eq!(balance_to_stroops("7."), Ok(70_000_000));
    assert_eq!(balance_to_stroops("-1.5"), Ok(-5_000_000));
}

#[test]
fn malformed_balances_are_refused() {
    assert_eq!(balance_to_stroops("abc"), Err(BalanceTextError::WholePart));
    assert_eq!(balance_to_stroops(".5"), Err(BalanceTextError::WholePart));
    assert_eq!(balance_to_stroops("1.x"), Err(BalanceTextError::FracPart));
    assert_eq!(balance_to_stroops("922337203685.4775808"), Err(BalanceTextError::Overflow));
    assert_eq!(balance_to_stroops("922337203685.4775807"), Ok(i64::MAX));
}
