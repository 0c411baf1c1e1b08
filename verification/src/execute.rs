//! Executing an opportunity: the prepared transaction, and which simulation
//! failures mean the path itself is broken.

use vstd::prelude::*;

use crate::invoke::min_amount_out_break_even;
use crate::prepare::{parse_base_received_from_sim_error, received_value};
use crate::scanner::{compute_profit_bps, profit_bps_value};
use crate::stats::{discard_counted, gap_counted, wrap_inc, ArbStats, DiscardReason};
use crate::text::{ascii_lowercase, chars_of, contains_chars, has_substring, to_ascii_lower};

verus! {

/// A transaction ready to submit (or to report in a dry run).
#[derive(Debug, Clone)]
pub struct PreparedArbTx {
    pub route_label: String,
    pub caller_public_key: String,
    pub amount_in: u128,
    /// Off-chain quoted output (quote-api).
    pub quoted_amount_out: u128,
    /// On-chain simulated output (`base_total` from contract return).
    pub simulated_amount_out: u128,
    /// Fee used for profit gates / accounting (stroops): simulated
    /// `min_resource_fee` only (declared inclusion bid is ignored here).
    pub estimated_fee_stroops: u128,
    pub profit_bps: i64,
    pub unsigned_tx_xdr: String,
    pub simulated: bool,
}

/// Host traps that will not produce a usable assembled tx: an invalid
/// action, an access outside the footprint, an exceeded limit, or a
/// footprint error that trapped the host (case-insensitive for ASCII).
pub open spec fn structural_failure(err: Seq<char>) -> bool {
    let e = ascii_lowercase(err);
    has_substring(e, "invalidaction"@) || has_substring(e, "outside of the footprint"@) || has_substring(
        e,
        "exceededlimit"@,
    ) || (has_substring(e, "footprint"@) && (has_substring(e, "hosterror"@) || has_substring(e, "trapped"@)))
}

/// Host traps that will not produce a usable assembled tx (retrying the same
/// quote envelope is wasted work).
pub fn is_structural_sim_failure(err: &str) -> (r: bool)
    ensures
        r == structural_failure(err@),
{
    let text = chars_of(err);
    let e = to_ascii_lower(text.as_slice());
    let e = e.as_slice();
    let invalid_action = chars_of("invalidaction");
    let outside = chars_of("outside of the footprint");
    let exceeded = chars_of("exceededlimit");
    let footprint = chars_of("footprint");
    let host_error = chars_of("hosterror");
    let trapped = chars_of("trapped");
    contains_chars(e, invalid_action.as_slice()) || contains_chars(e, outside.as_slice()) || contains_chars(
        e,
        exceeded.as_slice(),
    ) || (contains_chars(e, footprint.as_slice()) && (contains_chars(e, host_error.as_slice()) || contains_chars(
        e,
        trapped.as_slice(),
    )))
}

/// The amounts of a round-trip quote that the decisions read.
#[derive(Debug, Clone, Copy, PartialEq, Eq, Structural)]
pub struct QuoteAmounts {
    pub amount_in: u128,
    pub amount_out: u128,
}

/// `amount_out - amount_in`, or 0.
pub open spec fn quote_profit(q: QuoteAmounts) -> int {
    if q.amount_out >= q.amount_in {
        q.amount_out - q.amount_in
    } else {
        0
    }
}

/// The trade-size and profit limits of the configuration.
#[derive(Debug, Clone, Copy, PartialEq, Eq, Structural)]
pub struct PrepareLimits {
    pub min_amount_in: u128,
    /// The configured maximum, capped by the vault balance.
    pub max_amount_in: u128,
    pub min_profit: u128,
}

/// A scanned quote is executed when its size is within the limits and its
/// quoted profit reaches the minimum.
pub open spec fn executable_value(limits: PrepareLimits, q: QuoteAmounts) -> bool {
    limits.min_amount_in <= q.amount_in <= limits.max_amount_in && quote_profit(q) >= limits.min_profit
}

/// Whether a scanned quote may be executed.
pub fn quote_executable(limits: &PrepareLimits, quote: &QuoteAmounts) -> (r: bool)
    ensures
        r == executable_value(*limits, *quote),
{
    if quote.amount_in < limits.min_amount_in || quote.amount_in > limits.max_amount_in {
        return false;
    }
    quote.amount_out.saturating_sub(quote.amount_in) >= limits.min_profit
}

/// Where a preparation stands.
#[derive(Debug, Clone, Copy, PartialEq, Eq, Structural)]
pub enum PreparePhase {
    /// A simulation was asked for.
    Simulating,
    /// A probe-size re-quote was asked for, after the optimized size returned
    /// `recovered_base_out` on chain.
    AwaitingProbe { recovered_base_out: u128 },
    /// An unsimulated envelope was asked for.
    AwaitingEnvelope,
    /// Nothing more to do.
    Done,
}

/// The state of one preparation.
#[derive(Debug, Clone, Copy, PartialEq, Eq, Structural)]
pub struct PrepareRun {
    pub quote: QuoteAmounts,
    pub tried_probe_fallback: bool,
    pub phase: PreparePhase,
}

/// The numbers of a prepared transaction.
#[derive(Debug, Clone, Copy, PartialEq, Eq, Structural)]
pub struct PrepareOutcome {
    pub amount_in: u128,
    pub quoted_amount_out: u128,
    pub simulated_amount_out: u128,
    pub estimated_fee_stroops: u128,
    pub profit_bps: i64,
    pub simulated: bool,
}

/// What the caller does next.
#[derive(Debug, Clone, Copy, PartialEq, Eq, Structural)]
pub enum PrepareAction {
    /// Build the round-trip operation for `amount_in` with this floor and
    /// simulate it.
    Simulate { amount_in: u128, min_amount_out: i128 },
    /// Re-quote the round trip at `amount_in`.
    RequoteProbe { amount_in: u128 },
    /// Build the envelope without a simulation.
    BuildRawEnvelope,
    /// Drop the opportunity.
    Discard,
    /// The transaction is ready.
    Prepared(PrepareOutcome),
}

/// What the caller reports back.
#[derive(Debug, Clone)]
pub enum PrepareEvent {
    Simulated { amount_out: u128, resource_fee_stroops: u128 },
    SimulationFailed { error: String },
    ProbeQuoted(QuoteAmounts),
    ProbeQuoteFailed,
    EnvelopeBuilt,
}

/// The numbers of the transaction for a quote and its simulation.
pub open spec fn outcome_value(q: QuoteAmounts, simulated_amount_out: u128, fee: u128, simulated: bool) -> PrepareOutcome {
    PrepareOutcome {
        amount_in: q.amount_in,
        quoted_amount_out: q.amount_out,
        simulated_amount_out,
        estimated_fee_stroops: fee,
        profit_bps: profit_bps_value(q.amount_in, simulated_amount_out) as i64,
        simulated,
    }
}

/// The simulated profit less the fee (both subtractions saturating at 0).
pub open spec fn net_after_fees(q: QuoteAmounts, simulated_amount_out: u128, fee: u128) -> int {
    let gross: int = if simulated_amount_out >= q.amount_in {
        simulated_amount_out - q.amount_in
    } else {
        0
    };
    if gross >= fee {
        gross - fee
    } else {
        0
    }
}

/// One step of a preparation: from the run, the stats and an event to the
/// new run, the new stats and the action.
pub open spec fn prepare_step_spec(
    run: PrepareRun,
    next: PrepareRun,
    stats: ArbStats,
    next_stats: ArbStats,
    limits: PrepareLimits,
    event: PrepareEvent,
    base_token: Seq<char>,
    aggregator: Seq<char>,
    caller: Seq<char>,
    action: PrepareAction,
) -> bool {
    let q = run.quote;
    let done = PrepareRun { phase: PreparePhase::Done, ..run };
    let discard = |reason: DiscardReason|
        action == PrepareAction::Discard && next == done && discard_counted(stats, next_stats, reason);
    let discard_with_gap = |reason: DiscardReason, b: u128|
        action == PrepareAction::Discard && next == done && exists|mid: ArbStats|
            discard_counted(stats, mid, reason) && gap_counted(mid, next_stats, q.amount_in, q.amount_out, b);
    match (run.phase, event) {
        (PreparePhase::Simulating, PrepareEvent::Simulated { amount_out, resource_fee_stroops }) => {
            if net_after_fees(q, amount_out, resource_fee_stroops) < limits.min_profit {
                discard(DiscardReason::FeeGate)
            } else {
                action == PrepareAction::Prepared(outcome_value(q, amount_out, resource_fee_stroops, true))
                    && next == done && next_stats == stats
            }
        },
        (PreparePhase::Simulating, PrepareEvent::SimulationFailed { error }) => {
            match received_value(error@, base_token, aggregator, Some(caller)) {
                Some(b) => if !run.tried_probe_fallback && q.amount_in > limits.min_amount_in {
                    &&& action == PrepareAction::RequoteProbe { amount_in: limits.min_amount_in }
                    &&& next == PrepareRun {
                        quote: q,
                        tried_probe_fallback: true,
                        phase: PreparePhase::AwaitingProbe { recovered_base_out: b },
                    }
                    &&& exists|mid: ArbStats|
                        discard_counted(stats, mid, DiscardReason::SizeUnprofitable) && gap_counted(
                            mid,
                            next_stats,
                            q.amount_in,
                            q.amount_out,
                            b,
                        )
                } else {
                    discard_with_gap(DiscardReason::BelowQuoted, b)
                },
                None => if structural_failure(error@) {
                    discard(DiscardReason::HostTrap)
                } else {
                    action == PrepareAction::BuildRawEnvelope && next == PrepareRun {
                        phase: PreparePhase::AwaitingEnvelope,
                        ..run
                    } && next_stats == stats
                },
            }
        },
        (PreparePhase::AwaitingProbe { recovered_base_out }, PrepareEvent::ProbeQuoted(p)) => {
            if quote_profit(p) >= limits.min_profit {
                action == PrepareAction::Simulate {
                    amount_in: p.amount_in,
                    min_amount_out: (if p.amount_in + 1 > i128::MAX {
                        i128::MAX as int
                    } else {
                        p.amount_in + 1
                    }) as i128,
                } && next == PrepareRun { quote: p, tried_probe_fallback: run.tried_probe_fallback, phase: PreparePhase::Simulating }
                    && next_stats == stats
            } else {
                discard(DiscardReason::ProbeUnprofitable)
            }
        },
        (PreparePhase::AwaitingProbe { recovered_base_out }, PrepareEvent::ProbeQuoteFailed) => {
            discard_with_gap(DiscardReason::BelowQuoted, recovered_base_out)
        },
        (PreparePhase::AwaitingEnvelope, PrepareEvent::EnvelopeBuilt) => {
            action == PrepareAction::Prepared(outcome_value(q, 0, 0, false)) && next == done && next_stats == stats
        },
        _ => action == PrepareAction::Discard && next == done && next_stats == stats,
    }
}

impl PrepareRun {
    /// A bound on the events the run still takes. The probe fallback comes
    /// once, so a run begun by `start` ends within four events.
    pub open spec fn remaining_steps(&self) -> nat {
        match self.phase {
            PreparePhase::Done => 0,
            PreparePhase::AwaitingEnvelope => 1,
            PreparePhase::Simulating => if self.tried_probe_fallback { 2 } else { 4 },
            PreparePhase::AwaitingProbe { .. } => if self.tried_probe_fallback { 3 } else { 5 },
        }
    }

    /// Begin preparing a scanned quote: `None` (drop it) when it is not
    /// executable, else the run and its first simulation.
    pub fn start(limits: &PrepareLimits, quote: QuoteAmounts) -> (r: Option<(PrepareRun, PrepareAction)>)
        ensures
            !executable_value(*limits, quote) ==> r is None,
            executable_value(*limits, quote) ==> r == Some(
                (
                    PrepareRun { quote, tried_probe_fallback: false, phase: PreparePhase::Simulating },
                    PrepareAction::Simulate {
                        amount_in: quote.amount_in,
                        min_amount_out: (if quote.amount_in + 1 > i128::MAX {
                            i128::MAX as int
                        } else {
                            quote.amount_in + 1
                        }) as i128,
                    },
                ),
            ),
    {
        if !quote_executable(limits, &quote) {
            return None;
        }
        Some(
            (
                PrepareRun { quote, tried_probe_fallback: false, phase: PreparePhase::Simulating },
                PrepareAction::Simulate {
                    amount_in: quote.amount_in,
                    min_amount_out: min_amount_out_break_even(quote.amount_in),
                },
            ),
        )
    }

    /// Take one reported event: simulate, fall back once to the probe size
    /// when the optimized size ran but lost money, discard below-quoted,
    /// structural and fee-gated results (counting why), or finish.
    pub fn step(
        &mut self,
        limits: &PrepareLimits,
        stats: &mut ArbStats,
        event: PrepareEvent,
        base_token: &str,
        aggregator: &str,
        caller: &str,
    ) -> (r: PrepareAction)
        ensures
            prepare_step_spec(
                *old(self),
                *final(self),
                *old(stats),
                *final(stats),
                *limits,
                event,
                base_token@,
                aggregator@,
                caller@,
                r,
            ),
            old(self).tried_probe_fallback ==> final(self).tried_probe_fallback && !(r is RequoteProbe),
            old(self).phase != PreparePhase::Done ==> final(self).remaining_steps() < old(self).remaining_steps(),
    {
        let q = self.quote;
        let ghost stats0 = *stats;
        match (self.phase, event) {
            (PreparePhase::Simulating, PrepareEvent::Simulated { amount_out, resource_fee_stroops }) => {
                self.phase = PreparePhase::Done;
                let net = amount_out.saturating_sub(q.amount_in).saturating_sub(resource_fee_stroops);
                if net < limits.min_profit {
                    stats.record_discard(DiscardReason::FeeGate);
                    return PrepareAction::Discard;
                }
                PrepareAction::Prepared(
                    PrepareOutcome {
                        amount_in: q.amount_in,
                        quoted_amount_out: q.amount_out,
                        simulated_amount_out: amount_out,
                        estimated_fee_stroops: resource_fee_stroops,
                        profit_bps: compute_profit_bps(q.amount_in, amount_out),
                        simulated: true,
                    },
                )
            },
            (PreparePhase::Simulating, PrepareEvent::SimulationFailed { error }) => {
                let recovered = parse_base_received_from_sim_error(error.as_str(), base_token, aggregator, caller);
                match recovered {
                    Some(b) => {
                        if !self.tried_probe_fallback && q.amount_in > limits.min_amount_in {
                            stats.record_discard(DiscardReason::SizeUnprofitable);
                            let ghost mid = *stats;
                            stats.record_quote_sim_gap(q.amount_in, q.amount_out, b);
                            proof {
                                assert(discard_counted(stats0, mid, DiscardReason::SizeUnprofitable));
                            }
                            self.tried_probe_fallback = true;
                            self.phase = PreparePhase::AwaitingProbe { recovered_base_out: b };
                            return PrepareAction::RequoteProbe { amount_in: limits.min_amount_in };
                        }
                        stats.record_discard(DiscardReason::BelowQuoted);
                        let ghost mid = *stats;
                        stats.record_quote_sim_gap(q.amount_in, q.amount_out, b);
                        proof {
                            assert(discard_counted(stats0, mid, DiscardReason::BelowQuoted));
                        }
                        self.phase = PreparePhase::Done;
                        PrepareAction::Discard
                    },
                    None => {
                        if is_structural_sim_failure(error.as_str()) {
                            stats.record_discard(DiscardReason::HostTrap);
                            self.phase = PreparePhase::Done;
                            return PrepareAction::Discard;
                        }
                        self.phase = PreparePhase::AwaitingEnvelope;
                        PrepareAction::BuildRawEnvelope
                    },
                }
            },
            (PreparePhase::AwaitingProbe { recovered_base_out }, PrepareEvent::ProbeQuoted(p)) => {
                if p.amount_out.saturating_sub(p.amount_in) >= limits.min_profit {
                    self.quote = p;
                    self.phase = PreparePhase::Simulating;
                    return PrepareAction::Simulate {
                        amount_in: p.amount_in,
                        min_amount_out: min_amount_out_break_even(p.amount_in),
                    };
                }
                stats.record_discard(DiscardReason::ProbeUnprofitable);
                self.phase = PreparePhase::Done;
                PrepareAction::Discard
            },
            (PreparePhase::AwaitingProbe { recovered_base_out }, PrepareEvent::ProbeQuoteFailed) => {
                stats.record_discard(DiscardReason::BelowQuoted);
                let ghost mid = *stats;
                stats.record_quote_sim_gap(q.amount_in, q.amount_out, recovered_base_out);
                proof {
                    assert(discard_counted(stats0, mid, DiscardReason::BelowQuoted));
                }
                self.phase = PreparePhase::Done;
                PrepareAction::Discard
            },
            (PreparePhase::AwaitingEnvelope, PrepareEvent::EnvelopeBuilt) => {
                self.phase = PreparePhase::Done;
                PrepareAction::Prepared(
                    PrepareOutcome {
                        amount_in: q.amount_in,
                        quoted_amount_out: q.amount_out,
                        simulated_amount_out: 0,
                        estimated_fee_stroops: 0,
                        profit_bps: compute_profit_bps(q.amount_in, 0),
                        simulated: false,
                    },
                )
            },
            _ => {
                self.phase = PreparePhase::Done;
                PrepareAction::Discard
            },
        }
    }
}

/// What follows a prepared transaction: counted as prepared; dropped (and
/// counted) when it was not simulated or on a dry run; else submitted.
pub fn submit_decision(stats: &mut ArbStats, simulated: bool, dry_run: bool) -> (submit: bool)
    ensures
        submit == (simulated && !dry_run),
        final(stats).txs_prepared == wrap_inc(old(stats).txs_prepared),
        final(stats).txs_sim_rejected == (if !simulated {
            wrap_inc(old(stats).txs_sim_rejected)
        } else {
            old(stats).txs_sim_rejected
        }),
        final(stats).txs_dry_run == (if simulated && dry_run {
            wrap_inc(old(stats).txs_dry_run)
        } else {
            old(stats).txs_dry_run
        }),
        final(stats).bridge == old(stats).bridge,
        final(stats).opportunities == old(stats).opportunities,
        final(stats).txs_submitted == old(stats).txs_submitted,
        final(stats).txs_sim_profit_rejected == old(stats).txs_sim_profit_rejected,
{
    stats.txs_prepared = stats.txs_prepared.wrapping_add(1);
    if !simulated {
        stats.txs_sim_rejected = stats.txs_sim_rejected.wrapping_add(1);
        return false;
    }
    if dry_run {
        stats.txs_dry_run = stats.txs_dry_run.wrapping_add(1);
        return false;
    }
    true
}

} // verus!
