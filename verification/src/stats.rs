//! Counters for the quote → simulate funnel: per-bridge counts, discards by
//! reason, the quote-vs-chain gap, and detection of quiet windows (windows
//! with opportunities but no prepared transaction).

use vstd::prelude::*;
use vstd::string::StringExecFns;

use crate::clmm_math::bitmap::trunc_div;
use crate::decimal::{decimal_text, push_decimal, push_signed, signed_text};
use crate::scanner::{bps_gap, bps_gap_value};
use crate::text::{bytes_lt, lemma_bytes_lt_total, lemma_bytes_lt_trans, place_bytes, BytePlace};

verus! {

/// Funnel counters of one bridge token.
#[derive(Debug, Clone, Copy, Default, PartialEq, Eq, Structural)]
pub struct BridgeStats {
    pub evaluated: u64,
    pub quote_failed: u64,
    pub unprofitable_quotes: u64,
    pub opportunities: u64,
}

/// Funnel counters of one bridge token, with its name.
#[derive(Debug, Clone, PartialEq, Eq)]
pub struct BridgeStatsSnapshot {
    pub bridge: String,
    pub evaluated: u64,
    pub quote_failed: u64,
    pub unprofitable_quotes: u64,
    pub opportunities: u64,
}

/// Which per-bridge counter an event increments.
#[derive(Debug, Clone, Copy, PartialEq, Eq, Structural)]
pub enum BridgeCounter {
    Evaluated,
    QuoteFailed,
    Unprofitable,
    Opportunity,
}

/// `v + 1`, saturating at `u64::MAX`.
pub open spec fn sat_inc(v: u64) -> u64 {
    if v == u64::MAX {
        v
    } else {
        (v + 1) as u64
    }
}

/// `now - before`, or 0 when the counter went back.
pub open spec fn counter_delta(now: u64, before: u64) -> u64 {
    if now >= before {
        (now - before) as u64
    } else {
        0
    }
}

/// `v * 10_000`, saturating at `u64::MAX`.
pub open spec fn sat_bps(v: u64) -> int {
    if v * 10_000 > u64::MAX {
        u64::MAX as int
    } else {
        v * 10_000
    }
}

/// The byte string by which bridges are ordered.
pub open spec fn name_key(name: Seq<char>) -> Seq<u8> {
    vstd::utf8::encode_utf8(name)
}

impl BridgeStatsSnapshot {
    pub open spec fn key(&self) -> Seq<u8> {
        name_key(self.bridge@)
    }

    pub open spec fn counts(&self) -> BridgeStats {
        BridgeStats {
            evaluated: self.evaluated,
            quote_failed: self.quote_failed,
            unprofitable_quotes: self.unprofitable_quotes,
            opportunities: self.opportunities,
        }
    }
}

/// The counters after one more event of kind `c`.
pub open spec fn bumped(s: BridgeStats, c: BridgeCounter) -> BridgeStats {
    match c {
        BridgeCounter::Evaluated => BridgeStats { evaluated: sat_inc(s.evaluated), ..s },
        BridgeCounter::QuoteFailed => BridgeStats { quote_failed: sat_inc(s.quote_failed), ..s },
        BridgeCounter::Unprofitable => BridgeStats { unprofitable_quotes: sat_inc(s.unprofitable_quotes), ..s },
        BridgeCounter::Opportunity => BridgeStats { opportunities: sat_inc(s.opportunities), ..s },
    }
}

/// All counters zero.
pub open spec fn zero_bridge_stats() -> BridgeStats {
    BridgeStats { evaluated: 0, quote_failed: 0, unprofitable_quotes: 0, opportunities: 0 }
}

/// One entry per bridge, in byte order of the names.
pub open spec fn bridges_sorted(e: Seq<BridgeStatsSnapshot>) -> bool {
    forall|i: int, j: int| 0 <= i < j < e.len() ==> bytes_lt(#[trigger] e[i].key(), #[trigger] e[j].key())
}

/// Whether some entry is named `name`.
pub open spec fn has_bridge(e: Seq<BridgeStatsSnapshot>, name: Seq<char>) -> bool {
    exists|i: int| 0 <= i < e.len() && #[trigger] e[i].key() == name_key(name)
}

/// The entry named `name`, when there is one.
pub open spec fn bridge_index(e: Seq<BridgeStatsSnapshot>, name: Seq<char>) -> int {
    choose|i: int| 0 <= i < e.len() && #[trigger] e[i].key() == name_key(name)
}

/// `after` is `before` with one more event of kind `c` for bridge `name`: its
/// entry bumped in place, or a new entry for it slotted into the order.
pub open spec fn bridge_recorded(
    before: Seq<BridgeStatsSnapshot>,
    after: Seq<BridgeStatsSnapshot>,
    name: Seq<char>,
    c: BridgeCounter,
) -> bool {
    if has_bridge(before, name) {
        let i = bridge_index(before, name);
        &&& after.len() == before.len()
        &&& after[i].bridge == before[i].bridge
        &&& after[i].counts() == bumped(before[i].counts(), c)
        &&& forall|j: int| 0 <= j < before.len() && j != i ==> after[j] == before[j]
    } else {
        &&& after.len() == before.len() + 1
        &&& exists|p: int|
            #![trigger after[p]]
            0 <= p <= before.len() && after[p].bridge@ == name && after[p].counts() == bumped(zero_bridge_stats(), c)
                && (forall|j: int| 0 <= j < p ==> after[j] == before[j]) && (forall|j: int|
                p < j < after.len() ==> after[j] == before[j - 1])
    }
}

/// Counters for bot observability.
pub struct ArbStats {
    /// Per-bridge funnel counters, one entry per bridge in name order.
    pub bridge: Vec<BridgeStatsSnapshot>,
    pub routes_evaluated: u64,
    pub quote_failed: u64,
    pub unprofitable_quotes: u64,
    pub opportunities: u64,
    pub txs_prepared: u64,
    pub txs_sim_rejected: u64,
    /// All economic sim discards (size / below_quoted / fee / probe).
    pub txs_sim_profit_rejected: u64,
    /// Optimized size failed break-even on-chain (may still retry probe).
    pub discard_size_unprofitable: u64,
    /// Probe/sized route executed on-chain but below quoted profit.
    pub discard_below_quoted: u64,
    /// Sim succeeded but net after fees < the minimum profit.
    pub discard_fee_gate: u64,
    /// Probe re-quote profit < min_profit (never reached chain sim for probe).
    pub discard_probe_unprofitable: u64,
    /// Sum of (quoted_bps − on_chain_bps) samples for avg gap.
    pub quote_sim_gap_bps_sum: i64,
    pub quote_sim_gap_samples: u64,
    pub txs_dry_run: u64,
    pub txs_submitted: u64,
    pub txs_succeeded: u64,
    pub txs_failed: u64,
    pub txs_dedup_skipped: u64,
}

/// Point-in-time copy of the scalar counters.
#[derive(Debug, Clone, Copy)]
pub struct ArbStatsSnapshot {
    pub routes_evaluated: u64,
    pub quote_failed: u64,
    pub unprofitable_quotes: u64,
    pub opportunities: u64,
    pub txs_prepared: u64,
    pub txs_sim_rejected: u64,
    pub txs_sim_profit_rejected: u64,
    pub discard_size_unprofitable: u64,
    pub discard_below_quoted: u64,
    pub discard_fee_gate: u64,
    pub discard_probe_unprofitable: u64,
    pub avg_quote_sim_gap_bps: i64,
    pub quote_sim_gap_samples: u64,
    pub txs_dry_run: u64,
    pub txs_submitted: u64,
    pub txs_succeeded: u64,
    pub txs_failed: u64,
    pub txs_dedup_skipped: u64,
}

/// Counters observed between two snapshots.
#[derive(Debug, Clone, Copy, Default, PartialEq, Eq, Structural)]
pub struct ArbStatsDelta {
    pub routes_evaluated: u64,
    pub quote_failed: u64,
    pub unprofitable_quotes: u64,
    pub opportunities: u64,
    pub txs_prepared: u64,
    pub txs_sim_rejected: u64,
    pub txs_sim_profit_rejected: u64,
    pub txs_submitted: u64,
    pub txs_succeeded: u64,
    pub txs_failed: u64,
    pub txs_dedup_skipped: u64,
    pub quote_sim_gap_samples: u64,
}

/// The scalar counters of two stats agree.
pub open spec fn same_counters(a: ArbStats, b: ArbStats) -> bool {
    &&& a.routes_evaluated == b.routes_evaluated
    &&& a.quote_failed == b.quote_failed
    &&& a.unprofitable_quotes == b.unprofitable_quotes
    &&& a.opportunities == b.opportunities
    &&& a.txs_prepared == b.txs_prepared
    &&& a.txs_sim_rejected == b.txs_sim_rejected
    &&& a.txs_sim_profit_rejected == b.txs_sim_profit_rejected
    &&& a.discard_size_unprofitable == b.discard_size_unprofitable
    &&& a.discard_below_quoted == b.discard_below_quoted
    &&& a.discard_fee_gate == b.discard_fee_gate
    &&& a.discard_probe_unprofitable == b.discard_probe_unprofitable
    &&& a.quote_sim_gap_bps_sum == b.quote_sim_gap_bps_sum
    &&& a.quote_sim_gap_samples == b.quote_sim_gap_samples
    &&& a.txs_dry_run == b.txs_dry_run
    &&& a.txs_submitted == b.txs_submitted
    &&& a.txs_succeeded == b.txs_succeeded
    &&& a.txs_failed == b.txs_failed
    &&& a.txs_dedup_skipped == b.txs_dedup_skipped
}

/// Mean of the gap samples, rounded toward zero (0 with no sample). The count
/// is taken as an `i64`, as a signed division needs.
pub open spec fn avg_gap_value(sum: i64, samples: u64) -> int {
    if samples == 0 {
        0
    } else {
        trunc_div(sum as int, (samples as i64) as int)
    }
}

/// `a + b` wrapped into `i64`.
pub open spec fn wrap_add_i64(a: int, b: int) -> int {
    if a + b > i64::MAX {
        a + b - 0x1_0000_0000_0000_0000int
    } else if a + b < i64::MIN {
        a + b + 0x1_0000_0000_0000_0000int
    } else {
        a + b
    }
}

/// quoted_bps − on_chain_bps, saturated.
pub open spec fn quote_sim_gap_value(amount_in: u128, quoted_amount_out: u128, on_chain_base_out: u128) -> int {
    bps_gap_value(amount_in, quoted_amount_out, on_chain_base_out)
}

impl ArbStats {
    /// One entry per bridge, in name order.
    pub open spec fn well_formed(&self) -> bool {
        bridges_sorted(self.bridge@)
    }

    /// What `snapshot` reads.
    pub open spec fn snapshot_value(&self) -> ArbStatsSnapshot {
        ArbStatsSnapshot {
            routes_evaluated: self.routes_evaluated,
            quote_failed: self.quote_failed,
            unprofitable_quotes: self.unprofitable_quotes,
            opportunities: self.opportunities,
            txs_prepared: self.txs_prepared,
            txs_sim_rejected: self.txs_sim_rejected,
            txs_sim_profit_rejected: self.txs_sim_profit_rejected,
            discard_size_unprofitable: self.discard_size_unprofitable,
            discard_below_quoted: self.discard_below_quoted,
            discard_fee_gate: self.discard_fee_gate,
            discard_probe_unprofitable: self.discard_probe_unprofitable,
            avg_quote_sim_gap_bps: avg_gap_value(self.quote_sim_gap_bps_sum, self.quote_sim_gap_samples) as i64,
            quote_sim_gap_samples: self.quote_sim_gap_samples,
            txs_dry_run: self.txs_dry_run,
            txs_submitted: self.txs_submitted,
            txs_succeeded: self.txs_succeeded,
            txs_failed: self.txs_failed,
            txs_dedup_skipped: self.txs_dedup_skipped,
        }
    }

    /// All counters zero, no bridge.
    pub fn new() -> (r: Self)
        ensures
            r.well_formed(),
            r.bridge@.len() == 0,
            r.routes_evaluated == 0 && r.quote_failed == 0 && r.unprofitable_quotes == 0,
            r.opportunities == 0 && r.txs_prepared == 0 && r.txs_sim_rejected == 0,
            r.txs_sim_profit_rejected == 0 && r.discard_size_unprofitable == 0,
            r.discard_below_quoted == 0 && r.discard_fee_gate == 0 && r.discard_probe_unprofitable == 0,
            r.quote_sim_gap_bps_sum == 0 && r.quote_sim_gap_samples == 0 && r.txs_dry_run == 0,
            r.txs_submitted == 0 && r.txs_succeeded == 0 && r.txs_failed == 0 && r.txs_dedup_skipped == 0,
    {
        ArbStats {
            bridge: Vec::new(),
            routes_evaluated: 0,
            quote_failed: 0,
            unprofitable_quotes: 0,
            opportunities: 0,
            txs_prepared: 0,
            txs_sim_rejected: 0,
            txs_sim_profit_rejected: 0,
            discard_size_unprofitable: 0,
            discard_below_quoted: 0,
            discard_fee_gate: 0,
            discard_probe_unprofitable: 0,
            quote_sim_gap_bps_sum: 0,
            quote_sim_gap_samples: 0,
            txs_dry_run: 0,
            txs_submitted: 0,
            txs_succeeded: 0,
            txs_failed: 0,
            txs_dedup_skipped: 0,
        }
    }

    /// One more event of kind `counter` for `bridge`.
    #[verifier::loop_isolation(false)]
    pub fn record_bridge(&mut self, bridge: &str, counter: BridgeCounter)
        requires
            old(self).well_formed(),
        ensures
            final(self).well_formed(),
            same_counters(*final(self), *old(self)),
            bridge_recorded(old(self).bridge@, final(self).bridge@, bridge@, counter),
    {
        let key = bridge.as_bytes();
        let ghost k = name_key(bridge@);
        let ghost before = self.bridge@;
        let mut i: usize = 0;
        while i < self.bridge.len()
            invariant
                self.bridge@ == before,
                same_counters(*self, *old(self)),
                bridges_sorted(before),
                key@ == k,
                k == name_key(bridge@),
                i <= before.len(),
                forall|j: int| 0 <= j < i ==> bytes_lt(#[trigger] before[j].key(), k),
            decreases self.bridge.len() - i,
        {
            let place = place_bytes(self.bridge[i].bridge.as_str().as_bytes(), key);
            match place {
                BytePlace::Before => {
                    i = i + 1;
                },
                BytePlace::Same => {
                    let e = &self.bridge[i];
                    let s = BridgeStats {
                        evaluated: e.evaluated,
                        quote_failed: e.quote_failed,
                        unprofitable_quotes: e.unprofitable_quotes,
                        opportunities: e.opportunities,
                    };
                    let b = bump(s, counter);
                    let updated = BridgeStatsSnapshot {
                        bridge: e.bridge.clone(),
                        evaluated: b.evaluated,
                        quote_failed: b.quote_failed,
                        unprofitable_quotes: b.unprofitable_quotes,
                        opportunities: b.opportunities,
                    };
                    proof {
                        assert(before[i as int].key() == k);
                        assert(has_bridge(before, bridge@));
                        let c = bridge_index(before, bridge@);
                        if c != i {
                            lemma_bytes_lt_total(k, k);
                            if c < i {
                                assert(bytes_lt(before[c].key(), before[i as int].key()));
                            } else {
                                assert(bytes_lt(before[i as int].key(), before[c].key()));
                            }
                        }
                    }
                    self.bridge.set(i, updated);
                    proof {
                        assert forall|a: int, b: int| 0 <= a < b < self.bridge@.len() implies bytes_lt(
                            #[trigger] self.bridge@[a].key(),
                            #[trigger] self.bridge@[b].key(),
                        ) by {
                            assert(before[a].key() == self.bridge@[a].key());
                            assert(before[b].key() == self.bridge@[b].key());
                        }
                    }
                    return;
                },
                BytePlace::After => {
                    break;
                },
            }
        }
        proof {
            lemma_bytes_lt_total(k, k);
            assert forall|j: int| i <= j < before.len() implies bytes_lt(k, #[trigger] before[j].key()) by {
                if j > i {
                    lemma_bytes_lt_trans(k, before[i as int].key(), before[j].key());
                }
            }
            assert(!has_bridge(before, bridge@)) by {
                if has_bridge(before, bridge@) {
                    let c = bridge_index(before, bridge@);
                    if c < i {
                        assert(bytes_lt(before[c].key(), k));
                    } else {
                        assert(bytes_lt(k, before[c].key()));
                    }
                }
            }
        }
        let b = bump(BridgeStats { evaluated: 0, quote_failed: 0, unprofitable_quotes: 0, opportunities: 0 }, counter);
        let fresh = BridgeStatsSnapshot {
            bridge: bridge.to_owned(),
            evaluated: b.evaluated,
            quote_failed: b.quote_failed,
            unprofitable_quotes: b.unprofitable_quotes,
            opportunities: b.opportunities,
        };
        self.bridge.insert(i, fresh);
        proof {
            let after = self.bridge@;
            assert(after[i as int].key() == k);
            assert forall|a: int, c: int| 0 <= a < c < after.len() implies bytes_lt(
                #[trigger] after[a].key(),
                #[trigger] after[c].key(),
            ) by {
                if c < i {
                    assert(after[a] == before[a] && after[c] == before[c]);
                } else if c == i {
                    assert(after[a] == before[a]);
                } else if a == i {
                    assert(after[c] == before[c - 1]);
                } else if a < i {
                    assert(after[a] == before[a] && after[c] == before[c - 1]);
                    lemma_bytes_lt_trans(before[a].key(), k, before[c - 1].key());
                } else {
                    assert(after[a] == before[a - 1] && after[c] == before[c - 1]);
                }
            }
            assert(after[i as int].bridge@ == bridge@);
        }
    }

    pub fn record_bridge_evaluated(&mut self, bridge: &str)
        requires
            old(self).well_formed(),
        ensures
            final(self).well_formed(),
            same_counters(*final(self), *old(self)),
            bridge_recorded(old(self).bridge@, final(self).bridge@, bridge@, BridgeCounter::Evaluated),
    {
        self.record_bridge(bridge, BridgeCounter::Evaluated);
    }

    pub fn record_bridge_quote_failed(&mut self, bridge: &str)
        requires
            old(self).well_formed(),
        ensures
            final(self).well_formed(),
            same_counters(*final(self), *old(self)),
            bridge_recorded(old(self).bridge@, final(self).bridge@, bridge@, BridgeCounter::QuoteFailed),
    {
        self.record_bridge(bridge, BridgeCounter::QuoteFailed);
    }

    pub fn record_bridge_unprofitable(&mut self, bridge: &str)
        requires
            old(self).well_formed(),
        ensures
            final(self).well_formed(),
            same_counters(*final(self), *old(self)),
            bridge_recorded(old(self).bridge@, final(self).bridge@, bridge@, BridgeCounter::Unprofitable),
    {
        self.record_bridge(bridge, BridgeCounter::Unprofitable);
    }

    pub fn record_bridge_opportunity(&mut self, bridge: &str)
        requires
            old(self).well_formed(),
        ensures
            final(self).well_formed(),
            same_counters(*final(self), *old(self)),
            bridge_recorded(old(self).bridge@, final(self).bridge@, bridge@, BridgeCounter::Opportunity),
    {
        self.record_bridge(bridge, BridgeCounter::Opportunity);
    }

    /// The per-bridge counters, one entry per bridge in name order.
    pub fn bridge_breakdown(&self) -> (r: Vec<BridgeStatsSnapshot>)
        ensures
            r@ == self.bridge@,
    {
        let mut out: Vec<BridgeStatsSnapshot> = Vec::new();
        let mut i: usize = 0;
        while i < self.bridge.len()
            invariant
                i <= self.bridge@.len(),
                out@ == self.bridge@.subrange(0, i as int),
            decreases self.bridge.len() - i,
        {
            let e = &self.bridge[i];
            out.push(
                BridgeStatsSnapshot {
                    bridge: e.bridge.clone(),
                    evaluated: e.evaluated,
                    quote_failed: e.quote_failed,
                    unprofitable_quotes: e.unprofitable_quotes,
                    opportunities: e.opportunities,
                },
            );
            proof {
                assert(self.bridge@.subrange(0, i + 1) =~= self.bridge@.subrange(0, i as int).push(self.bridge@[i as int]));
            }
            i = i + 1;
        }
        proof {
            assert(self.bridge@.subrange(0, i as int) =~= self.bridge@);
        }
        out
    }

    /// Point-in-time copy of the scalar counters, with the mean gap.
    pub fn snapshot(&self) -> (r: ArbStatsSnapshot)
        requires
            !(self.quote_sim_gap_samples == u64::MAX && self.quote_sim_gap_bps_sum == i64::MIN),
        ensures
            r == self.snapshot_value(),
    {
        let gap_samples = self.quote_sim_gap_samples;
        let gap_sum = self.quote_sim_gap_bps_sum;
        let avg_gap_bps = if gap_samples == 0 {
            0
        } else {
            let divisor = gap_samples as i64;
            proof {
                assert(gap_samples != 0 ==> divisor != 0) by (bit_vector)
                    requires
                        divisor == gap_samples as i64,
                ;
                assert(divisor == -1 ==> gap_samples == u64::MAX) by (bit_vector)
                    requires
                        divisor == gap_samples as i64,
                ;
            }
            gap_sum / divisor
        };
        ArbStatsSnapshot {
            routes_evaluated: self.routes_evaluated,
            quote_failed: self.quote_failed,
            unprofitable_quotes: self.unprofitable_quotes,
            opportunities: self.opportunities,
            txs_prepared: self.txs_prepared,
            txs_sim_rejected: self.txs_sim_rejected,
            txs_sim_profit_rejected: self.txs_sim_profit_rejected,
            discard_size_unprofitable: self.discard_size_unprofitable,
            discard_below_quoted: self.discard_below_quoted,
            discard_fee_gate: self.discard_fee_gate,
            discard_probe_unprofitable: self.discard_probe_unprofitable,
            avg_quote_sim_gap_bps: avg_gap_bps,
            quote_sim_gap_samples: gap_samples,
            txs_dry_run: self.txs_dry_run,
            txs_submitted: self.txs_submitted,
            txs_succeeded: self.txs_succeeded,
            txs_failed: self.txs_failed,
            txs_dedup_skipped: self.txs_dedup_skipped,
        }
    }

    /// Record a quote-vs-on-chain gap sample (bps). Positive ⇒ quote more
    /// optimistic. The running sum and count wrap, as atomic adds do.
    pub fn record_quote_sim_gap(&mut self, amount_in: u128, quoted_amount_out: u128, on_chain_base_out: u128)
        ensures
            gap_counted(*old(self), *final(self), amount_in, quoted_amount_out, on_chain_base_out),
    {
        let gap = quote_sim_gap_bps(amount_in, quoted_amount_out, on_chain_base_out);
        self.quote_sim_gap_bps_sum = self.quote_sim_gap_bps_sum.wrapping_add(gap);
        self.quote_sim_gap_samples = self.quote_sim_gap_samples.wrapping_add(1);
    }
}

/// Why a prepared opportunity was dropped after its simulation.
#[derive(Debug, Clone, Copy, PartialEq, Eq, Structural)]
pub enum DiscardReason {
    /// The optimized size failed break-even on chain (a probe-size retry
    /// may follow).
    SizeUnprofitable,
    /// The route ran on chain but returned less than quoted.
    BelowQuoted,
    /// The probe-size re-quote was below the minimum profit.
    ProbeUnprofitable,
    /// The simulated profit after fees was below the minimum.
    FeeGate,
    /// The simulation hit a structural host trap.
    HostTrap,
}

/// `v + 1`, wrapping (as an atomic add does).
pub open spec fn wrap_inc(v: u64) -> u64 {
    if v == u64::MAX {
        0
    } else {
        (v + 1) as u64
    }
}

/// `b` is `a` with the counters of one discard for `reason` bumped.
pub open spec fn discard_counted(a: ArbStats, b: ArbStats, reason: DiscardReason) -> bool {
    let profit_rejected = reason == DiscardReason::BelowQuoted || reason == DiscardReason::ProbeUnprofitable
        || reason == DiscardReason::FeeGate;
    &&& b.bridge == a.bridge
    &&& b.routes_evaluated == a.routes_evaluated
    &&& b.quote_failed == a.quote_failed
    &&& b.unprofitable_quotes == a.unprofitable_quotes
    &&& b.opportunities == a.opportunities
    &&& b.txs_prepared == a.txs_prepared
    &&& b.txs_sim_rejected == (if reason == DiscardReason::HostTrap {
        wrap_inc(a.txs_sim_rejected)
    } else {
        a.txs_sim_rejected
    })
    &&& b.txs_sim_profit_rejected == (if profit_rejected {
        wrap_inc(a.txs_sim_profit_rejected)
    } else {
        a.txs_sim_profit_rejected
    })
    &&& b.discard_size_unprofitable == (if reason == DiscardReason::SizeUnprofitable {
        wrap_inc(a.discard_size_unprofitable)
    } else {
        a.discard_size_unprofitable
    })
    &&& b.discard_below_quoted == (if reason == DiscardReason::BelowQuoted {
        wrap_inc(a.discard_below_quoted)
    } else {
        a.discard_below_quoted
    })
    &&& b.discard_fee_gate == (if reason == DiscardReason::FeeGate {
        wrap_inc(a.discard_fee_gate)
    } else {
        a.discard_fee_gate
    })
    &&& b.discard_probe_unprofitable == (if reason == DiscardReason::ProbeUnprofitable {
        wrap_inc(a.discard_probe_unprofitable)
    } else {
        a.discard_probe_unprofitable
    })
    &&& b.quote_sim_gap_bps_sum == a.quote_sim_gap_bps_sum
    &&& b.quote_sim_gap_samples == a.quote_sim_gap_samples
    &&& b.txs_dry_run == a.txs_dry_run
    &&& b.txs_submitted == a.txs_submitted
    &&& b.txs_succeeded == a.txs_succeeded
    &&& b.txs_failed == a.txs_failed
    &&& b.txs_dedup_skipped == a.txs_dedup_skipped
}

/// `b` is `a` with one more gap sample recorded.
pub open spec fn gap_counted(a: ArbStats, b: ArbStats, amount_in: u128, quoted_amount_out: u128, on_chain_base_out: u128) -> bool {
    &&& b.quote_sim_gap_bps_sum == wrap_add_i64(
        a.quote_sim_gap_bps_sum as int,
        quote_sim_gap_value(amount_in, quoted_amount_out, on_chain_base_out),
    )
    &&& b.quote_sim_gap_samples == wrap_inc(a.quote_sim_gap_samples)
    &&& b.bridge == a.bridge
    &&& b.routes_evaluated == a.routes_evaluated
    &&& b.quote_failed == a.quote_failed
    &&& b.unprofitable_quotes == a.unprofitable_quotes
    &&& b.opportunities == a.opportunities
    &&& b.txs_prepared == a.txs_prepared
    &&& b.txs_sim_rejected == a.txs_sim_rejected
    &&& b.txs_sim_profit_rejected == a.txs_sim_profit_rejected
    &&& b.discard_size_unprofitable == a.discard_size_unprofitable
    &&& b.discard_below_quoted == a.discard_below_quoted
    &&& b.discard_fee_gate == a.discard_fee_gate
    &&& b.discard_probe_unprofitable == a.discard_probe_unprofitable
    &&& b.txs_dry_run == a.txs_dry_run
    &&& b.txs_submitted == a.txs_submitted
    &&& b.txs_succeeded == a.txs_succeeded
    &&& b.txs_failed == a.txs_failed
    &&& b.txs_dedup_skipped == a.txs_dedup_skipped
}

impl ArbStats {
    /// Count one discard for `reason`.
    pub fn record_discard(&mut self, reason: DiscardReason)
        ensures
            discard_counted(*old(self), *final(self), reason),
    {
        match reason {
            DiscardReason::SizeUnprofitable => {
                self.discard_size_unprofitable = self.discard_size_unprofitable.wrapping_add(1);
            },
            DiscardReason::BelowQuoted => {
                self.txs_sim_profit_rejected = self.txs_sim_profit_rejected.wrapping_add(1);
                self.discard_below_quoted = self.discard_below_quoted.wrapping_add(1);
            },
            DiscardReason::ProbeUnprofitable => {
                self.txs_sim_profit_rejected = self.txs_sim_profit_rejected.wrapping_add(1);
                self.discard_probe_unprofitable = self.discard_probe_unprofitable.wrapping_add(1);
            },
            DiscardReason::FeeGate => {
                self.txs_sim_profit_rejected = self.txs_sim_profit_rejected.wrapping_add(1);
                self.discard_fee_gate = self.discard_fee_gate.wrapping_add(1);
            },
            DiscardReason::HostTrap => {
                self.txs_sim_rejected = self.txs_sim_rejected.wrapping_add(1);
            },
        }
    }
}

impl Default for ArbStats {
    fn default() -> (r: Self)
        ensures
            r.well_formed(),
            r.bridge@.len() == 0,
            r.opportunities == 0 && r.txs_prepared == 0 && r.quote_sim_gap_samples == 0,
    {
        ArbStats::new()
    }
}

/// The counters after one more event of kind `c`.
fn bump(s: BridgeStats, c: BridgeCounter) -> (r: BridgeStats)
    ensures
        r == bumped(s, c),
{
    match c {
        BridgeCounter::Evaluated => BridgeStats { evaluated: s.evaluated.saturating_add(1), ..s },
        BridgeCounter::QuoteFailed => BridgeStats { quote_failed: s.quote_failed.saturating_add(1), ..s },
        BridgeCounter::Unprofitable => BridgeStats { unprofitable_quotes: s.unprofitable_quotes.saturating_add(1), ..s },
        BridgeCounter::Opportunity => BridgeStats { opportunities: s.opportunities.saturating_add(1), ..s },
    }
}

impl ArbStatsSnapshot {
    /// Counters observed since the previous reporter tick; each counter that
    /// went back (a restart) gives 0.
    pub fn delta_since(&self, previous: &Self) -> (r: ArbStatsDelta)
        ensures
            r.routes_evaluated == counter_delta(self.routes_evaluated, previous.routes_evaluated),
            r.quote_failed == counter_delta(self.quote_failed, previous.quote_failed),
            r.unprofitable_quotes == counter_delta(self.unprofitable_quotes, previous.unprofitable_quotes),
            r.opportunities == counter_delta(self.opportunities, previous.opportunities),
            r.txs_prepared == counter_delta(self.txs_prepared, previous.txs_prepared),
            r.txs_sim_rejected == counter_delta(self.txs_sim_rejected, previous.txs_sim_rejected),
            r.txs_sim_profit_rejected == counter_delta(self.txs_sim_profit_rejected, previous.txs_sim_profit_rejected),
            r.txs_submitted == counter_delta(self.txs_submitted, previous.txs_submitted),
            r.txs_succeeded == counter_delta(self.txs_succeeded, previous.txs_succeeded),
            r.txs_failed == counter_delta(self.txs_failed, previous.txs_failed),
            r.txs_dedup_skipped == counter_delta(self.txs_dedup_skipped, previous.txs_dedup_skipped),
            r.quote_sim_gap_samples == counter_delta(self.quote_sim_gap_samples, previous.quote_sim_gap_samples),
    {
        ArbStatsDelta {
            routes_evaluated: self.routes_evaluated.saturating_sub(previous.routes_evaluated),
            quote_failed: self.quote_failed.saturating_sub(previous.quote_failed),
            unprofitable_quotes: self.unprofitable_quotes.saturating_sub(previous.unprofitable_quotes),
            opportunities: self.opportunities.saturating_sub(previous.opportunities),
            txs_prepared: self.txs_prepared.saturating_sub(previous.txs_prepared),
            txs_sim_rejected: self.txs_sim_rejected.saturating_sub(previous.txs_sim_rejected),
            txs_sim_profit_rejected: self.txs_sim_profit_rejected.saturating_sub(previous.txs_sim_profit_rejected),
            txs_submitted: self.txs_submitted.saturating_sub(previous.txs_submitted),
            txs_succeeded: self.txs_succeeded.saturating_sub(previous.txs_succeeded),
            txs_failed: self.txs_failed.saturating_sub(previous.txs_failed),
            txs_dedup_skipped: self.txs_dedup_skipped.saturating_sub(previous.txs_dedup_skipped),
            quote_sim_gap_samples: self.quote_sim_gap_samples.saturating_sub(previous.quote_sim_gap_samples),
        }
    }

    /// Prepared transactions per opportunity, in basis points (0 without
    /// opportunities).
    pub open spec fn prepare_rate_value(&self) -> int {
        if self.opportunities == 0 {
            0
        } else {
            sat_bps(self.txs_prepared) / (self.opportunities as int)
        }
    }

    /// Economic simulation discards per opportunity, in basis points (0
    /// without opportunities).
    pub open spec fn sim_reject_rate_value(&self) -> int {
        if self.opportunities == 0 {
            0
        } else {
            sat_bps(self.txs_sim_profit_rejected) / (self.opportunities as int)
        }
    }

    /// Prepared transactions per opportunity, in basis points (0 without
    /// opportunities).
    pub fn prepare_rate_bps(&self) -> (r: u64)
        ensures
            r == self.prepare_rate_value(),
    {
        if self.opportunities == 0 {
            return 0;
        }
        sat_mul_bps(self.txs_prepared) / self.opportunities
    }

    /// Economic simulation discards per opportunity, in basis points (0
    /// without opportunities).
    pub fn sim_reject_rate_bps(&self) -> (r: u64)
        ensures
            r == self.sim_reject_rate_value(),
    {
        if self.opportunities == 0 {
            return 0;
        }
        sat_mul_bps(self.txs_sim_profit_rejected) / self.opportunities
    }
}

pub(crate) fn sat_mul_bps(v: u64) -> (r: u64)
    ensures
        r == sat_bps(v),
{
    match v.checked_mul(10_000) {
        Some(x) => x,
        None => u64::MAX,
    }
}

/// quoted_bps − on_chain_bps. Positive means the quote path looked better than
/// sim.
pub fn quote_sim_gap_bps(amount_in: u128, quoted_amount_out: u128, on_chain_base_out: u128) -> (r: i64)
    ensures
        r == quote_sim_gap_value(amount_in, quoted_amount_out, on_chain_base_out),
{
    bps_gap(amount_in, quoted_amount_out, on_chain_base_out)
}

/// Detect long stretches with opportunities but zero prepares (quote/sim
/// funnel leak).
#[derive(Debug, Clone)]
pub struct QuietWindowTracker {
    /// Consecutive quiet ticks required before alert.
    pub min_windows: u32,
    /// Minimum opportunity delta in a tick to count as "active scanning".
    pub min_opportunities: u64,
    /// Length of the current run of quiet ticks.
    pub consecutive_quiet: u32,
    /// The snapshot of the previous tick.
    pub last: ArbStatsSnapshot,
    /// Whether a first snapshot has been seen.
    pub primed: bool,
}

/// What a quiet streak reports.
#[derive(Debug, Clone, Copy, PartialEq, Eq, Structural)]
pub struct QuietWindowAlert {
    pub consecutive_windows: u32,
    pub opportunities_delta: u64,
    pub prepared_delta: u64,
    pub discard_size_unprofitable_delta: u64,
    pub discard_below_quoted_delta: u64,
    pub discard_fee_gate_delta: u64,
    pub avg_quote_sim_gap_bps: i64,
    pub gap_samples_delta: u64,
    pub prepare_rate_bps: u64,
    pub sim_reject_rate_bps: u64,
}

impl QuietWindowAlert {
    /// The alert message.
    pub open spec fn text_value(&self) -> Seq<char> {
        "⚠️ LumAgg arb quiet window\n· consecutive ticks: "@ + decimal_text(self.consecutive_windows as nat) + "\n· Δ opportunities: "@ + decimal_text(self.opportunities_delta as nat) + " (prepared: "@ + decimal_text(self.prepared_delta as nat) + ")\n· Δ discards: size="@ + decimal_text(self.discard_size_unprofitable_delta as nat) + " below_quoted="@ + decimal_text(self.discard_below_quoted_delta as nat) + " fee_gate="@ + decimal_text(self.discard_fee_gate_delta as nat) + "\n· avg quote−sim gap: "@ + signed_text(self.avg_quote_sim_gap_bps as int) + " bps (session)\n· prepare_rate: "@ + decimal_text(self.prepare_rate_bps as nat) + " bps · sim_reject_rate: "@ + decimal_text(self.sim_reject_rate_bps as nat) + " bps\nLikely quote path optimistic vs on-chain sim — check pool freshness."@
    }

    /// The alert message for the chat channel.
    pub fn telegram_text(&self) -> (r: String)
        ensures
            r@ == self.text_value(),
    {
        let mut out = String::new();
        out.append("⚠️ LumAgg arb quiet window\n· consecutive ticks: ");
        push_decimal(&mut out, self.consecutive_windows as u128);
        out.append("\n· Δ opportunities: ");
        push_decimal(&mut out, self.opportunities_delta as u128);
        out.append(" (prepared: ");
        push_decimal(&mut out, self.prepared_delta as u128);
        out.append(")\n· Δ discards: size=");
        push_decimal(&mut out, self.discard_size_unprofitable_delta as u128);
        out.append(" below_quoted=");
        push_decimal(&mut out, self.discard_below_quoted_delta as u128);
        out.append(" fee_gate=");
        push_decimal(&mut out, self.discard_fee_gate_delta as u128);
        out.append("\n· avg quote−sim gap: ");
        push_signed(&mut out, self.avg_quote_sim_gap_bps);
        out.append(" bps (session)\n· prepare_rate: ");
        push_decimal(&mut out, self.prepare_rate_bps as u128);
        out.append(" bps · sim_reject_rate: ");
        push_decimal(&mut out, self.sim_reject_rate_bps as u128);
        out.append(" bps\nLikely quote path optimistic vs on-chain sim — check pool freshness.");
        proof {
            assert(out@ =~= self.text_value());
        }
        out
    }
}

/// `v + 1`, saturating at `u32::MAX`.
pub open spec fn sat_inc_u32(v: u32) -> u32 {
    if v == u32::MAX {
        v
    } else {
        (v + 1) as u32
    }
}

/// A tick is quiet when it saw at least `min_opportunities` new opportunities
/// and no new prepared transaction.
pub open spec fn quiet_tick(min_opportunities: u64, last: ArbStatsSnapshot, now: ArbStatsSnapshot) -> bool {
    counter_delta(now.opportunities, last.opportunities) >= min_opportunities && counter_delta(
        now.txs_prepared,
        last.txs_prepared,
    ) == 0
}

/// The alert for a streak of `windows` quiet ticks ending at `now`.
pub open spec fn quiet_alert(windows: u32, last: ArbStatsSnapshot, now: ArbStatsSnapshot) -> QuietWindowAlert {
    QuietWindowAlert {
        consecutive_windows: windows,
        opportunities_delta: counter_delta(now.opportunities, last.opportunities),
        prepared_delta: counter_delta(now.txs_prepared, last.txs_prepared),
        discard_size_unprofitable_delta: counter_delta(now.discard_size_unprofitable, last.discard_size_unprofitable),
        discard_below_quoted_delta: counter_delta(now.discard_below_quoted, last.discard_below_quoted),
        discard_fee_gate_delta: counter_delta(now.discard_fee_gate, last.discard_fee_gate),
        avg_quote_sim_gap_bps: now.avg_quote_sim_gap_bps,
        gap_samples_delta: counter_delta(now.quote_sim_gap_samples, last.quote_sim_gap_samples),
        prepare_rate_bps: now.prepare_rate_value() as u64,
        sim_reject_rate_bps: now.sim_reject_rate_value() as u64,
    }
}

/// A snapshot with every counter zero.
pub open spec fn zero_snapshot() -> ArbStatsSnapshot {
    ArbStatsSnapshot {
        routes_evaluated: 0,
        quote_failed: 0,
        unprofitable_quotes: 0,
        opportunities: 0,
        txs_prepared: 0,
        txs_sim_rejected: 0,
        txs_sim_profit_rejected: 0,
        discard_size_unprofitable: 0,
        discard_below_quoted: 0,
        discard_fee_gate: 0,
        discard_probe_unprofitable: 0,
        avg_quote_sim_gap_bps: 0,
        quote_sim_gap_samples: 0,
        txs_dry_run: 0,
        txs_submitted: 0,
        txs_succeeded: 0,
        txs_failed: 0,
        txs_dedup_skipped: 0,
    }
}

impl QuietWindowTracker {
    /// A tracker that alerts after `min_windows` quiet ticks (at least 1) of
    /// at least `min_opportunities` opportunities each (at least 1).
    pub fn new(min_windows: u32, min_opportunities: u64) -> (r: Self)
        ensures
            r.min_windows == (if min_windows >= 1 {
                min_windows
            } else {
                1
            }),
            r.min_opportunities == (if min_opportunities >= 1 {
                min_opportunities
            } else {
                1
            }),
            r.consecutive_quiet == 0,
            r.last == zero_snapshot(),
            !r.primed,
    {
        QuietWindowTracker {
            min_windows: if min_windows >= 1 {
                min_windows
            } else {
                1
            },
            min_opportunities: if min_opportunities >= 1 {
                min_opportunities
            } else {
                1
            },
            consecutive_quiet: 0,
            last: ArbStatsSnapshot {
                routes_evaluated: 0,
                quote_failed: 0,
                unprofitable_quotes: 0,
                opportunities: 0,
                txs_prepared: 0,
                txs_sim_rejected: 0,
                txs_sim_profit_rejected: 0,
                discard_size_unprofitable: 0,
                discard_below_quoted: 0,
                discard_fee_gate: 0,
                discard_probe_unprofitable: 0,
                avg_quote_sim_gap_bps: 0,
                quote_sim_gap_samples: 0,
                txs_dry_run: 0,
                txs_submitted: 0,
                txs_succeeded: 0,
                txs_failed: 0,
                txs_dedup_skipped: 0,
            },
            primed: false,
        }
    }

    /// Feed a new cumulative snapshot. The first one only primes the
    /// tracker. Afterwards a quiet tick lengthens the streak and any other
    /// tick ends it; an alert comes on every quiet tick once the streak has
    /// reached `min_windows`.
    pub fn observe(&mut self, now: ArbStatsSnapshot) -> (r: Option<QuietWindowAlert>)
        ensures
            final(self).min_windows == old(self).min_windows,
            final(self).min_opportunities == old(self).min_opportunities,
            final(self).last == now,
            final(self).primed,
            r is Some ==> old(self).primed && quiet_tick(old(self).min_opportunities, old(self).last, now)
                && old(self).min_windows <= final(self).consecutive_quiet <= old(self).consecutive_quiet + 1,
            !old(self).primed ==> r is None && final(self).consecutive_quiet == old(self).consecutive_quiet,
            old(self).primed ==> final(self).consecutive_quiet == (if quiet_tick(
                old(self).min_opportunities,
                old(self).last,
                now,
            ) {
                sat_inc_u32(old(self).consecutive_quiet)
            } else {
                0
            }),
            old(self).primed ==> r == (if quiet_tick(old(self).min_opportunities, old(self).last, now)
                && final(self).consecutive_quiet >= old(self).min_windows {
                Some(quiet_alert(final(self).consecutive_quiet, old(self).last, now))
            } else {
                None
            }),
    {
        if !self.primed {
            self.last = now;
            self.primed = true;
            return None;
        }
        let d_opp = now.opportunities.saturating_sub(self.last.opportunities);
        let d_prep = now.txs_prepared.saturating_sub(self.last.txs_prepared);
        let d_size = now.discard_size_unprofitable.saturating_sub(self.last.discard_size_unprofitable);
        let d_below = now.discard_below_quoted.saturating_sub(self.last.discard_below_quoted);
        let d_fee = now.discard_fee_gate.saturating_sub(self.last.discard_fee_gate);
        let d_gap_samples = now.quote_sim_gap_samples.saturating_sub(self.last.quote_sim_gap_samples);
        self.last = now;
        let quiet = d_opp >= self.min_opportunities && d_prep == 0;
        if quiet {
            self.consecutive_quiet = self.consecutive_quiet.saturating_add(1);
        } else {
            self.consecutive_quiet = 0;
            return None;
        }
        if self.consecutive_quiet < self.min_windows {
            return None;
        }
        Some(
            QuietWindowAlert {
                consecutive_windows: self.consecutive_quiet,
                opportunities_delta: d_opp,
                prepared_delta: d_prep,
                discard_size_unprofitable_delta: d_size,
                discard_below_quoted_delta: d_below,
                discard_fee_gate_delta: d_fee,
                avg_quote_sim_gap_bps: now.avg_quote_sim_gap_bps,
                gap_samples_delta: d_gap_samples,
                prepare_rate_bps: now.prepare_rate_bps(),
                sim_reject_rate_bps: now.sim_reject_rate_bps(),
            },
        )
    }
}

} // verus!
