use lumagg::profit::{ProfitWindow, RecentTx};
use lumagg::stats::{ArbStatsSnapshot, BridgeStatsSnapshot};
use lumagg::telegram::format_report;

fn empty_funnel() -> ArbStatsSnapshot {
    ArbStatsSnapshot {
        routes_evaluated: 1000,
        quote_failed: 0,
        unprofitable_quotes: 99,
        opportunities: 100,
        txs_prepared: 1,
        txs_sim_rejected: 0,
        txs_sim_profit_rejected: 90,
        discard_size_unprofitable: 50,
        discard_below_quoted: 30,
        discard_fee_gate: 10,
        discard_probe_unprofitable: 0,
        avg_quote_sim_gap_bps: 20,
        quote_sim_gap_samples: 80,
        txs_dry_run: 0,
        txs_submitted: 1,
        txs_succeeded: 1,
        txs_failed: 0,
        txs_dedup_skipped: 0,
    }
}

#[test]
fn report_contains_sections() {
    let hour = ProfitWindow {
        succeeded: 2,
        failed: 1,
        unknown: 0,
        submitted: 3,
        gross_profit_stroops: 500_000,
        fee_stroops: 1_000_000,
    };
    let session = hour.clone();
    let recent = vec![RecentTx {
        hash: "57132675d4897067".into(),
        amount_in: 100_000_000,
        gross_profit: 380_000,
        fee: 1_074_562,
    }];
    let msg = format_report(
        Some(18_000_000_000),
        &[(1, "GAAA".into(), Some(595_035_000))],
        &hour,
        &session,
        &recent,
        &empty_funnel(),
        &[],
    );
    assert!(msg.contains("LumAgg Arb Monitor"));
    assert!(msg.contains("Last hour"));
    assert!(msg.contains("57132675d489"));
    assert!(msg.contains("59.5035"));
    assert!(msg.contains("Quote→sim funnel"));
    assert!(msg.contains("avg quote−sim gap"));
    assert!(msg.contains("below_quoted=30"));
}

fn row(name: &str, evaluated: u64, opportunities: u64, quote_failed: u64) -> BridgeStatsSnapshot {
    BridgeStatsSnapshot { bridge: name.to_string(), evaluated, quote_failed, unprofitable_quotes: 1, opportunities }
}

#[test]
fn report_layout_and_bridge_ranking() {
    let w = ProfitWindow::default();
    let bridges = vec![
        row("AQUA", 10, 1, 5),
        row("ZED", 0, 9, 0),
        row("BLND", 20, 1, 0),
        row("USDC", 4, 3, 3),
        row("EURC", 20, 1, 1),
        row("A2", 1, 0, 0),
        row("A3", 1, 0, 0),
        row("A4", 1, 0, 0),
    ];
    let msg = format_report(None, &[(1, "GA".into(), None), (2, "GB".into(), Some(10_000_000))], &w, &w, &Vec::new(), &empty_funnel(), &bridges);
    let expected = "📊 LumAgg Arb Monitor\n\
\n\
🏦 Vault XLM: `(n/a)`\n\
\n\
⏱ Last hour:\n\
· succeeded: 0\n\
· failed: 0\n\
· unknown: 0\n\
· submitted: 0\n\
· gross profit: `0.0000` XLM\n\
· est. fees: `0.0000` XLM\n\
· net: `0.0000` XLM\n\
\n\
📈 Session:\n\
· succeeded: 0\n\
· failed: 0\n\
· unknown: 0\n\
· submitted: 0\n\
· gross profit: `0.0000` XLM\n\
· est. fees: `0.0000` XLM\n\
· net: `0.0000` XLM\n\
\n\
Recent SUCCESS: (none)\n\
\n\
🔎 Quote→sim funnel (session):\n\
· quote_failed: 0\n\
· unprofitable: 99\n\
· opportunities: 100\n\
· prepared: 1 (100 bps)\n\
· sim_profit_rejected: 90 (9000 bps)\n\
· discards: size=50 below_quoted=30 fee=10 probe=0\n\
· avg quote−sim gap: `20` bps (n=80)\n\
\n\
🧭 Bridge funnel (top 6):\n\
· USDC: eval=4 opp=3 unprof=1 quote_fail=3 (7500 bps)\n\
· BLND: eval=20 opp=1 unprof=1 quote_fail=0 (0 bps)\n\
· EURC: eval=20 opp=1 unprof=1 quote_fail=1 (500 bps)\n\
· AQUA: eval=10 opp=1 unprof=1 quote_fail=5 (5000 bps)\n\
· A2: eval=1 opp=0 unprof=1 quote_fail=0 (0 bps)\n\
· A3: eval=1 opp=0 unprof=1 quote_fail=0 (0 bps)\n\
\n\
👛 Caller Accounts:\n\
idx=1: `(err)`\n\
idx=2: `1.0000` XLM\n\
💰 Total Caller XLM: `1.0000` XLM\n\
✅ Grand Total: `1.0000` XLM";
    assert_eq!(msg, expected);
}

#[test]
fn report_without_scans_or_callers() {
    let w = ProfitWindow::default();
    let msg = format_report(Some(5), &[], &w, &w, &Vec::new(), &empty_funnel(), &[row("X", 0, 0, 0)]);
    assert!(msg.contains("🧭 Bridge funnel: (no scans yet)"));
    assert!(msg.contains("🏦 Vault XLM: `0.0000` XLM"));
    assert!(msg.ends_with("👛 Caller Accounts:\n💰 Total Caller XLM: `0.0000` XLM\n✅ Grand Total: `0.0000` XLM"));
}
