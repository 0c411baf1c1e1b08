use lumagg::execute::{
    PrepareAction, PrepareEvent, PrepareLimits, PreparePhase, PrepareRun, QuoteAmounts,
};
use lumagg::stats::{ArbStats, QuietWindowAlert};

const AGG: &str = "CC6QAV7JEG5MYRSPO5Z65E5G2M4ZB64BEG2ZXIZXL55TQT35JDI2LC6K";
const BASE: &str = "CAS3J7GYLGXMF6TDJBBYYSE3HQ6BBSMLNUQ34T6TZMYMW2EVH34XOWMA";
const CALLER: &str = "GCMDWFAHD6PYI5SI2N2M6XINZDITECUV4XN7LYQGOWKQSIMQPRNK2DLN";

fn limits() -> PrepareLimits {
    PrepareLimits { min_amount_in: 10_000_000, max_amount_in: 1_000_000_000, min_profit: 100 }
}

fn below_quoted_log() -> String {
    format!(
        "10: [Failed Contract Event (not emitted)] contract:{BASE}, topics:[transfer, CBDRLPPJBF2LQNGEEGRBHNLFL5QCMKLKP5BUCQVX3HKRTXODHTXEQRZ6, {AGG}, \"native\"], data:99990273\n"
    )
}

#[test]
fn start_drops_quotes_outside_the_limits() {
    let l = limits();
    assert!(PrepareRun::start(&l, QuoteAmounts { amount_in: 1, amount_out: 1_000 }).is_none());
    assert!(PrepareRun::start(&l, QuoteAmounts { amount_in: 20_000_000, amount_out: 20_000_050 }).is_none());
    let (run, action) = PrepareRun::start(&l, QuoteAmounts { amount_in: 20_000_000, amount_out: 20_001_000 }).unwrap();
    assert_eq!(run.phase, PreparePhase::Simulating);
    assert!(!run.tried_probe_fallback);
    assert_eq!(action, PrepareAction::Simulate { amount_in: 20_000_000, min_amount_out: 20_000_001 });
}

#[test]
fn simulated_profit_prepares_or_hits_the_fee_gate() {
    let l = limits();
    let mut stats = ArbStats::new();
    let q = QuoteAmounts { amount_in: 20_000_000, amount_out: 20_001_000 };
    let (mut run, _) = PrepareRun::start(&l, q).unwrap();
    let action = run.step(
        &l,
        &mut stats,
        PrepareEvent::Simulated { amount_out: 20_002_000, resource_fee_stroops: 500 },
        BASE,
        AGG,
        CALLER,
    );
    match action {
        PrepareAction::Prepared(o) => {
            assert_eq!(o.amount_in, 20_000_000);
            assert_eq!(o.quoted_amount_out, 20_001_000);
            assert_eq!(o.simulated_amount_out, 20_002_000);
            assert_eq!(o.estimated_fee_stroops, 500);
            assert_eq!(o.profit_bps, 1);
            assert!(o.simulated);
        },
        other => panic!("unexpected {other:?}"),
    }
    assert_eq!(run.phase, PreparePhase::Done);

    let (mut run, _) = PrepareRun::start(&l, q).unwrap();
    let action = run.step(
        &l,
        &mut stats,
        PrepareEvent::Simulated { amount_out: 20_000_150, resource_fee_stroops: 100 },
        BASE,
        AGG,
        CALLER,
    );
    assert_eq!(action, PrepareAction::Discard);
    assert_eq!(stats.discard_fee_gate, 1);
    assert_eq!(stats.txs_sim_profit_rejected, 1);
}

#[test]
fn probe_fallback_happens_once() {
    let l = limits();
    let mut stats = ArbStats::new();
    let q = QuoteAmounts { amount_in: 200_000_000, amount_out: 200_100_000 };
    let (mut run, _) = PrepareRun::start(&l, q).unwrap();
    let action = run.step(
        &l,
        &mut stats,
        PrepareEvent::SimulationFailed { error: below_quoted_log() },
        BASE,
        AGG,
        CALLER,
    );
    assert_eq!(action, PrepareAction::RequoteProbe { amount_in: 10_000_000 });
    assert!(run.tried_probe_fallback);
    assert_eq!(run.phase, PreparePhase::AwaitingProbe { recovered_base_out: 99_990_273 });
    assert_eq!(stats.discard_size_unprofitable, 1);
    assert_eq!(stats.quote_sim_gap_samples, 1);

    let probe = QuoteAmounts { amount_in: 10_000_000, amount_out: 10_001_000 };
    let action = run.step(&l, &mut stats, PrepareEvent::ProbeQuoted(probe), BASE, AGG, CALLER);
    assert_eq!(action, PrepareAction::Simulate { amount_in: 10_000_000, min_amount_out: 10_000_001 });
    assert_eq!(run.phase, PreparePhase::Simulating);

    let action = run.step(
        &l,
        &mut stats,
        PrepareEvent::SimulationFailed { error: below_quoted_log() },
        BASE,
        AGG,
        CALLER,
    );
    assert_eq!(action, PrepareAction::Discard);
    assert_eq!(run.phase, PreparePhase::Done);
    assert_eq!(stats.discard_below_quoted, 1);
    assert_eq!(stats.quote_sim_gap_samples, 2);
}

#[test]
fn unparsed_failures_build_a_raw_envelope_or_discard_traps() {
    let l = limits();
    let mut stats = ArbStats::new();
    let q = QuoteAmounts { amount_in: 20_000_000, amount_out: 20_001_000 };
    let (mut run, _) = PrepareRun::start(&l, q).unwrap();
    let action = run.step(
        &l,
        &mut stats,
        PrepareEvent::SimulationFailed { error: "rpc timeout".to_string() },
        BASE,
        AGG,
        CALLER,
    );
    assert_eq!(action, PrepareAction::BuildRawEnvelope);
    let action = run.step(&l, &mut stats, PrepareEvent::EnvelopeBuilt, BASE, AGG, CALLER);
    match action {
        PrepareAction::Prepared(o) => {
            assert!(!o.simulated);
            assert_eq!(o.simulated_amount_out, 0);
        },
        other => panic!("unexpected {other:?}"),
    }

    let (mut run, _) = PrepareRun::start(&l, q).unwrap();
    let action = run.step(
        &l,
        &mut stats,
        PrepareEvent::SimulationFailed { error: "HostError: Error(WasmVm, InvalidAction)".to_string() },
        BASE,
        AGG,
        CALLER,
    );
    assert_eq!(action, PrepareAction::Discard);
    assert_eq!(run.phase, PreparePhase::Done);
}

#[test]
fn quiet_window_alert_text() {
    let alert = QuietWindowAlert {
        consecutive_windows: 3,
        opportunities_delta: 12,
        prepared_delta: 0,
        discard_size_unprofitable_delta: 4,
        discard_below_quoted_delta: 5,
        discard_fee_gate_delta: 6,
        avg_quote_sim_gap_bps: -20,
        gap_samples_delta: 2,
        prepare_rate_bps: 0,
        sim_reject_rate_bps: 10_000,
    };
    let expected = "⚠️ LumAgg arb quiet window\n\
                    · consecutive ticks: 3\n\
                    · Δ opportunities: 12 (prepared: 0)\n\
                    · Δ discards: size=4 below_quoted=5 fee_gate=6\n\
                    · avg quote−sim gap: -20 bps (session)\n\
                    · prepare_rate: 0 bps · sim_reject_rate: 10000 bps\n\
                    Likely quote path optimistic vs on-chain sim — check pool freshness.";
    assert_eq!(alert.telegram_text(), expected);
}
