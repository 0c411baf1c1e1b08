//! Offline quote-vs-chain comparison helpers: per-hop gaps, the first hop
//! that diverges, seeded sampling of bridges, and the gap of a round trip.

use vstd::prelude::*;

use crate::scanner::{bps_gap, bps_gap_value};

verus! {

/// One hop of a path, quoted locally and (maybe) on chain.
#[derive(Debug, Clone)]
pub struct HopCompare {
    pub index: usize,
    pub source: String,
    pub pool: String,
    pub amount_in: u128,
    pub local_out: u128,
    pub chain_out: Option<u128>,
}

/// A hop with its gap, for reports.
#[derive(Debug, Clone)]
pub struct HopCompareReport {
    pub index: usize,
    pub source: String,
    pub pool: String,
    pub amount_in: u128,
    pub local_out: u128,
    pub chain_out: Option<u128>,
    pub gap_bps: Option<i64>,
}

/// A one-leg probe.
#[derive(Debug, Clone)]
pub struct ProbeSampleReport {
    pub mode: String,
    pub token_in: String,
    pub token_out: String,
    pub amount_in: u128,
    pub local_out: u128,
    pub chain_path_out: Option<u128>,
    pub gap_bps: Option<i64>,
    pub first_bad_hop: Option<usize>,
    pub hops: Vec<HopCompareReport>,
    pub simulate_out: Option<u128>,
    pub simulate_gap_bps: Option<i64>,
    pub error: Option<String>,
}

/// A round-trip probe: both legs and the simulated round trip.
#[derive(Debug, Clone)]
pub struct RoundTripProbeReport {
    pub bridge: String,
    pub amount_in: u128,
    pub quoted_out: u128,
    pub quoted_profit_bps: i64,
    pub leg_out: ProbeSampleReport,
    pub leg_back: ProbeSampleReport,
    pub simulate_out: Option<u128>,
    pub simulate_gap_bps: Option<i64>,
    pub error: Option<String>,
}

/// (local_out − chain_out) / amount_in in bps, using local as the reference
/// notional for the hop input. Positive ⇒ local optimistic vs chain.
pub fn hop_gap_bps(amount_in: u128, local_out: u128, chain_out: u128) -> (r: i64)
    ensures
        r == bps_gap_value(amount_in, local_out, chain_out),
{
    bps_gap(amount_in, local_out, chain_out)
}

pub open spec fn abs_int(v: int) -> int {
    if v < 0 {
        -v
    } else {
        v
    }
}

/// The index of the first hop whose chain quote failed, or whose gap
/// reaches `threshold_bps` in absolute value; hops without a local quote are
/// skipped.
pub open spec fn first_diverging_value(hops: Seq<HopCompare>, threshold_bps: i64) -> Option<usize>
    decreases hops.len(),
{
    if hops.len() == 0 {
        None
    } else {
        let h = hops[0];
        match h.chain_out {
            None => Some(h.index),
            Some(chain) => if h.local_out != 0 && abs_int(bps_gap_value(h.amount_in, h.local_out, chain))
                >= threshold_bps {
                Some(h.index)
            } else {
                first_diverging_value(hops.drop_first(), threshold_bps)
            },
        }
    }
}

/// A hop that diverges: its chain quote failed, or it has a local quote and
/// the gap between the two reaches `threshold_bps` in absolute value.
pub open spec fn hop_diverges(h: HopCompare, threshold_bps: i64) -> bool {
    match h.chain_out {
        None => true,
        Some(chain) => h.local_out != 0 && abs_int(bps_gap_value(h.amount_in, h.local_out, chain)) >= threshold_bps,
    }
}

/// The search reports the index of the first hop that diverges, and nothing
/// when none does.
pub proof fn lemma_first_diverging_is_first(hops: Seq<HopCompare>, threshold_bps: i64)
    ensures
        match first_diverging_value(hops, threshold_bps) {
            Some(idx) => exists|k: int|
                0 <= k < hops.len() && hop_diverges(#[trigger] hops[k], threshold_bps) && hops[k].index == idx
                    && forall|j: int| 0 <= j < k ==> !hop_diverges(#[trigger] hops[j], threshold_bps),
            None => forall|j: int| 0 <= j < hops.len() ==> !hop_diverges(#[trigger] hops[j], threshold_bps),
        },
    decreases hops.len(),
{
    if hops.len() > 0 {
        let rest = hops.drop_first();
        lemma_first_diverging_is_first(rest, threshold_bps);
        if hop_diverges(hops[0], threshold_bps) {
            assert(hop_diverges(hops[0], threshold_bps) && hops[0].index == hops[0].index);
        } else {
            match first_diverging_value(rest, threshold_bps) {
                Some(idx) => {
                    let k = choose|k: int|
                        0 <= k < rest.len() && hop_diverges(#[trigger] rest[k], threshold_bps) && rest[k].index == idx
                            && forall|j: int| 0 <= j < k ==> !hop_diverges(#[trigger] rest[j], threshold_bps);
                    assert(hops[k + 1] == rest[k]);
                    assert forall|j: int| 0 <= j < k + 1 implies !hop_diverges(#[trigger] hops[j], threshold_bps) by {
                        if j > 0 {
                            assert(hops[j] == rest[j - 1]);
                        }
                    }
                },
                None => {
                    assert forall|j: int| 0 <= j < hops.len() implies !hop_diverges(#[trigger] hops[j], threshold_bps) by {
                        if j > 0 {
                            assert(hops[j] == rest[j - 1]);
                        }
                    }
                },
            }
        }
    }
}

/// Every gap that the search examines has an absolute value in `i64`.
pub open spec fn first_diverging_safe(hops: Seq<HopCompare>, threshold_bps: i64) -> bool
    decreases hops.len(),
{
    hops.len() == 0 || {
        let h = hops[0];
        match h.chain_out {
            None => true,
            Some(chain) => if h.local_out == 0 {
                first_diverging_safe(hops.drop_first(), threshold_bps)
            } else {
                let g = bps_gap_value(h.amount_in, h.local_out, chain);
                g != i64::MIN && (abs_int(g) >= threshold_bps || first_diverging_safe(hops.drop_first(), threshold_bps))
            },
        }
    }
}

pub fn first_diverging_hop(hops: &[HopCompare], threshold_bps: i64) -> (r: Option<usize>)
    requires
        first_diverging_safe(hops@, threshold_bps),
    ensures
        r == first_diverging_value(hops@, threshold_bps),
{
    let mut i: usize = 0;
    proof {
        assert(hops@.skip(0) =~= hops@);
    }
    while i < hops.len()
        invariant
            i <= hops@.len(),
            first_diverging_value(hops@, threshold_bps) == first_diverging_value(hops@.skip(i as int), threshold_bps),
            first_diverging_safe(hops@.skip(i as int), threshold_bps),
        decreases hops.len() - i,
    {
        let h = &hops[i];
        proof {
            assert(hops@.skip(i as int)[0] == hops@[i as int]);
            assert(hops@.skip(i as int).drop_first() =~= hops@.skip(i + 1));
        }
        match h.chain_out {
            None => {
                return Some(h.index);
            },
            Some(chain) => {
                if h.local_out != 0 {
                    let gap = hop_gap_bps(h.amount_in, h.local_out, chain);
                    let magnitude = if gap < 0 {
                        -gap
                    } else {
                        gap
                    };
                    if magnitude >= threshold_bps {
                        return Some(h.index);
                    }
                }
            },
        }
        i = i + 1;
    }
    None
}

/// The sampling state after `n` steps of the generator from `seed` (0 is
/// taken as 1).
pub open spec fn lcg_state(seed: u64, n: nat) -> u64
    decreases n,
{
    if n == 0 {
        if seed >= 1 {
            seed
        } else {
            1
        }
    } else {
        let s = lcg_state(seed, (n - 1) as nat);
        ((s * 6364136223846793005 + 1) % 0x1_0000_0000_0000_0000) as u64
    }
}

/// The index that draw `k` (from 0) picks among `len` bridges.
pub open spec fn pick_index(seed: u64, k: nat, len: nat) -> int {
    ((lcg_state(seed, k + 1) as usize) as int) % (len as int)
}

/// Deterministic sampling with a simple LCG seeded RNG: `count` draws, with
/// repetition; none when there is no bridge or nothing to draw.
pub fn pick_bridges(bridges: &[String], count: usize, seed: u64) -> (r: Vec<String>)
    ensures
        bridges@.len() == 0 || count == 0 ==> r@.len() == 0,
        bridges@.len() > 0 && count > 0 ==> r@.len() == count,
        forall|k: int|
            0 <= k < r@.len() ==> #[trigger] r@[k] == bridges@[pick_index(seed, k as nat, bridges@.len())],
{
    let mut out: Vec<String> = Vec::new();
    if bridges.len() == 0 || count == 0 {
        return out;
    }
    let mut state: u64 = if seed >= 1 {
        seed
    } else {
        1
    };
    let mut n: usize = 0;
    while n < count
        invariant
            bridges@.len() > 0,
            n <= count,
            out@.len() == n,
            state == lcg_state(seed, n as nat),
            forall|k: int|
                0 <= k < n ==> #[trigger] out@[k] == bridges@[pick_index(seed, k as nat, bridges@.len())],
        decreases count - n,
    {
        state = state.wrapping_mul(6364136223846793005).wrapping_add(1);
        proof {
            let s = lcg_state(seed, n as nat);
            let m = vstd::wrapping::u64_specs::wrapping_mul(s, 6364136223846793005u64);
            assert(m == (s * 6364136223846793005) % 0x1_0000_0000_0000_0000);
            assert(state == vstd::wrapping::u64_specs::wrapping_add(m, 1u64));
            assert(((s * 6364136223846793005 + 1) % 0x1_0000_0000_0000_0000) as u64 == state) by (nonlinear_arith)
                requires
                    0 <= m < 0x1_0000_0000_0000_0000,
                    m == (s * 6364136223846793005) % 0x1_0000_0000_0000_0000,
                    state == (if m + 1 > u64::MAX { m + 1 - 0x1_0000_0000_0000_0000 } else { m + 1 }),
            ;
        }
        let idx = (state as usize) % bridges.len();
        out.push(bridges[idx].clone());
        n = n + 1;
    }
    out
}

/// `|v|` as a `u64`.
fn unsigned_abs(v: i64) -> (r: u64)
    ensures
        r == abs_int(v as int),
{
    if v < 0 {
        (0 - (v as i128)) as u64
    } else {
        v as u64
    }
}

/// Absolute gap (bps) for median exit-code checks: prefer simulate gap, else
/// max of both leg path gaps when both are known.
pub fn round_trip_abs_gap_bps(report: &RoundTripProbeReport) -> (r: Option<u64>)
    ensures
        r == (match report.simulate_gap_bps {
            Some(g) => Some(abs_int(g as int) as u64),
            None => match (report.leg_out.gap_bps, report.leg_back.gap_bps) {
                (Some(a), Some(b)) => Some(
                    (if abs_int(a as int) >= abs_int(b as int) {
                        abs_int(a as int)
                    } else {
                        abs_int(b as int)
                    }) as u64,
                ),
                _ => None,
            },
        }),
{
    if let Some(gap) = report.simulate_gap_bps {
        return Some(unsigned_abs(gap));
    }
    match (report.leg_out.gap_bps, report.leg_back.gap_bps) {
        (Some(out), Some(back)) => {
            let a = unsigned_abs(out);
            let b = unsigned_abs(back);
            Some(
                if a >= b {
                    a
                } else {
                    b
                },
            )
        },
        _ => None,
    }
}

/// The gap of a hop, when both quotes are known and the local one is not 0.
pub open spec fn hop_report_gap(h: HopCompare) -> Option<i64> {
    match h.chain_out {
        Some(chain) => if h.local_out > 0 {
            Some(bps_gap_value(h.amount_in, h.local_out, chain) as i64)
        } else {
            None
        },
        None => None,
    }
}

/// A hop as reported: its fields and its gap.
pub open spec fn hop_report(h: HopCompare) -> HopCompareReport {
    HopCompareReport {
        index: h.index,
        source: h.source,
        pool: h.pool,
        amount_in: h.amount_in,
        local_out: h.local_out,
        chain_out: h.chain_out,
        gap_bps: hop_report_gap(h),
    }
}

impl<'a> From<&'a HopCompare> for HopCompareReport {
    fn from(h: &'a HopCompare) -> (r: Self) {
        let gap_bps = match h.chain_out {
            Some(chain) => if h.local_out > 0 {
                Some(hop_gap_bps(h.amount_in, h.local_out, chain))
            } else {
                None
            },
            None => None,
        };
        HopCompareReport {
            index: h.index,
            source: h.source.clone(),
            pool: h.pool.clone(),
            amount_in: h.amount_in,
            local_out: h.local_out,
            chain_out: h.chain_out,
            gap_bps,
        }
    }
}

impl<'a> vstd::std_specs::convert::FromSpecImpl<&'a HopCompare> for HopCompareReport {
    open spec fn obeys_from_spec() -> bool {
        true
    }

    open spec fn from_spec(h: &'a HopCompare) -> Self {
        hop_report(*h)
    }
}

/// The report of a one-leg probe that stopped on `error`.
pub fn error_report(token_in: &str, token_out: &str, amount_in: u128, error: String) -> (r: ProbeSampleReport)
    ensures
        r.mode@ == "one-leg"@,
        r.token_in@ == token_in@ && r.token_out@ == token_out@ && r.amount_in == amount_in,
        r.local_out == 0 && r.chain_path_out is None && r.gap_bps is None && r.first_bad_hop is None,
        r.hops@.len() == 0 && r.simulate_out is None && r.simulate_gap_bps is None,
        r.error == Some(error),
{
    ProbeSampleReport {
        mode: "one-leg".to_owned(),
        token_in: token_in.to_owned(),
        token_out: token_out.to_owned(),
        amount_in,
        local_out: 0,
        chain_path_out: None,
        gap_bps: None,
        first_bad_hop: None,
        hops: Vec::new(),
        simulate_out: None,
        simulate_gap_bps: None,
        error: Some(error),
    }
}

/// A quoted sub-route can be walked: it has a hop, and a pool, an in-index
/// and an out-index per hop, and one token more than hops.
pub fn sub_route_complete(sources: usize, pools: usize, tokens: usize, in_indices: usize, out_indices: usize) -> (r:
    bool)
    ensures
        r == (sources > 0 && pools == sources && tokens == sources + 1 && in_indices == sources && out_indices
            == sources),
{
    sources > 0 && pools == sources && sources < usize::MAX && tokens == sources + 1 && in_indices == sources
        && out_indices == sources
}

/// A sub-route walked hop by hop on chain: each hop is quoted on chain for
/// the amount that the previous one gave.
pub struct HopWalk {
    pub amount_in: u128,
    /// The input of the next hop.
    pub current: u128,
    pub hops: Vec<HopCompare>,
    /// A hop gave no positive amount, so the walk stopped there.
    pub broken: bool,
}

/// The hops of a walk as reported: when it went through, the last hop holds
/// the quote's local output for the whole path.
pub open spec fn reported_hops(hops: Seq<HopCompare>, broken: bool, local_out: u128) -> Seq<HopCompare> {
    if !broken && hops.len() > 0 {
        hops.update(
            hops.len() - 1,
            HopCompare {
                index: hops.last().index,
                source: hops.last().source,
                pool: hops.last().pool,
                amount_in: hops.last().amount_in,
                local_out,
                chain_out: hops.last().chain_out,
            },
        )
    } else {
        hops
    }
}

impl HopWalk {
    /// A walk that has not quoted a hop yet.
    pub fn new(amount_in: u128) -> (r: Self)
        ensures
            r.amount_in == amount_in && r.current == amount_in && r.hops@.len() == 0 && !r.broken,
    {
        HopWalk { amount_in, current: amount_in, hops: Vec::new(), broken: false }
    }

    /// Record hop `index`, quoted on chain for the current amount: a positive
    /// output becomes the next hop's input and the walk goes on (`true`);
    /// none, or zero, stops it.
    pub fn record_hop(&mut self, index: usize, source: String, pool: String, chain_out: Option<u128>) -> (go_on: bool)
        requires
            !old(self).broken,
        ensures
            final(self).hops@ == old(self).hops@.push(
                HopCompare { index, source, pool, amount_in: old(self).current, local_out: 0, chain_out },
            ),
            final(self).amount_in == old(self).amount_in,
            go_on == (chain_out matches Some(v) && v > 0),
            final(self).broken == !go_on,
            go_on ==> final(self).current == chain_out->0,
            !go_on ==> final(self).current == old(self).current,
    {
        self.hops.push(HopCompare { index, source, pool, amount_in: self.current, local_out: 0, chain_out });
        match chain_out {
            Some(v) => if v > 0 {
                self.current = v;
                true
            } else {
                self.broken = true;
                false
            },
            None => {
                self.broken = true;
                false
            },
        }
    }

    /// The report of the walk for a quote whose path output was `local_out`:
    /// the chain output of the path when every hop went through, its gap to
    /// the local quote, and the first hop that diverges by `threshold_bps`.
    pub fn finish(self, token_in: &str, token_out: &str, local_out: u128, threshold_bps: i64) -> (r:
        ProbeSampleReport)
        requires
            first_diverging_safe(reported_hops(self.hops@, self.broken, local_out), threshold_bps),
        ensures
            r.mode@ == "one-leg"@,
            r.token_in@ == token_in@ && r.token_out@ == token_out@ && r.amount_in == self.amount_in,
            r.local_out == local_out,
            r.chain_path_out == (if self.broken {
                None
            } else {
                Some(self.current)
            }),
            r.gap_bps == (if self.broken {
                None
            } else {
                Some(bps_gap_value(self.amount_in, local_out, self.current) as i64)
            }),
            r.first_bad_hop == first_diverging_value(reported_hops(self.hops@, self.broken, local_out), threshold_bps),
            r.hops@ == reported_hops(self.hops@, self.broken, local_out).map_values(
                |h: HopCompare| hop_report(h),
            ),
            r.simulate_out is None && r.simulate_gap_bps is None && r.error is None,
    {
        let mut hops = self.hops;
        let chain_path_out = if self.broken {
            None
        } else {
            Some(self.current)
        };
        if !self.broken && hops.len() > 0 {
            let h = hops.pop().unwrap();
            hops.push(
                HopCompare {
                    index: h.index,
                    source: h.source,
                    pool: h.pool,
                    amount_in: h.amount_in,
                    local_out,
                    chain_out: h.chain_out,
                },
            );
            proof {
                assert(hops@ =~= reported_hops(self.hops@, self.broken, local_out));
            }
        }
        let gap_bps = match chain_path_out {
            Some(chain) => Some(hop_gap_bps(self.amount_in, local_out, chain)),
            None => None,
        };
        let first_bad_hop = first_diverging_hop(hops.as_slice(), threshold_bps);
        let mut reports: Vec<HopCompareReport> = Vec::new();
        let mut i: usize = 0;
        while i < hops.len()
            invariant
                i <= hops@.len(),
                reports@ == hops@.take(i as int).map_values(|h: HopCompare| hop_report(h)),
            decreases hops.len() - i,
        {
            let rep = HopCompareReport::from(&hops[i]);
            reports.push(rep);
            proof {
                assert(hops@.take(i + 1).map_values(|h: HopCompare| hop_report(h))
                    =~= hops@.take(i as int).map_values(|h: HopCompare| hop_report(h)).push(
                    hop_report(hops@[i as int]),
                ));
            }
            i = i + 1;
        }
        proof {
            assert(hops@.take(hops@.len() as int) =~= hops@);
        }
        ProbeSampleReport {
            mode: "one-leg".to_owned(),
            token_in: token_in.to_owned(),
            token_out: token_out.to_owned(),
            amount_in: self.amount_in,
            local_out,
            chain_path_out,
            gap_bps,
            first_bad_hop,
            hops: reports,
            simulate_out: None,
            simulate_gap_bps: None,
            error: None,
        }
    }
}

} // verus!
