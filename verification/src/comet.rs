//! Local quotes for Comet weighted pools from their hydrated state.

use vstd::prelude::*;

use crate::aquarius::AdapterQuote;
use crate::clmm_math::bitmap::trunc_div;
use crate::comet_math::{calc_out_given_in, calc_out_ok, calc_out_value, CometRecord};
use crate::text::str_eq;

verus! {

/// On-chain pool state used for local weighted-pool quotes: one record per
/// token contract, and the swap fee in stroops (7 decimals).
#[derive(Debug, Clone)]
pub struct CometPoolQuoteState {
    pub records: Vec<(String, CometRecord)>,
    pub swap_fee: i128,
}

impl CometPoolQuoteState {
    /// No two records are for the same token, as in a map keyed by token.
    pub open spec fn well_formed(&self) -> bool {
        forall|i: int, j: int|
            0 <= i < j < self.records@.len() ==> #[trigger] self.records@[i].0@ != #[trigger] self.records@[j].0@
    }
}

/// The record of `token` among `records`.
pub open spec fn record_for(records: Seq<(String, CometRecord)>, token: Seq<char>) -> Option<CometRecord>
    decreases records.len(),
{
    if records.len() == 0 {
        None
    } else if records[0].0@ == token {
        Some(records[0].1)
    } else {
        record_for(records.skip(1), token)
    }
}

/// Price impact of `amount_in` against twice the input balance, in basis
/// points, at most 10 000 (then cast to `u32`).
pub open spec fn comet_impact_value(amount_in: u128, balance: i128) -> u32 {
    let raw = trunc_div((amount_in as i128) * 10_000, 2 * balance);
    (if raw < 10_000 { raw } else { 10_000 }) as u32
}

/// The quote of a pool for a swap between two of its tokens: `None` when a
/// token has no record or nothing comes out.
pub open spec fn comet_quote_value(state: CometPoolQuoteState, token_in: Seq<char>, token_out: Seq<char>, amount_in: u128) -> Option<AdapterQuote> {
    match (record_for(state.records@, token_in), record_for(state.records@, token_out)) {
        (Some(i), Some(o)) => {
            let out = calc_out_value(i, o, amount_in as i128, state.swap_fee);
            if out <= 0 {
                None
            } else {
                Some(AdapterQuote {
                    amount_out: out as u128,
                    fee_bps: trunc_div(state.swap_fee as int, 1000) as u32,
                    price_impact_bps: comet_impact_value(amount_in, i.balance),
                })
            }
        },
        _ => None,
    }
}

/// The quote's arithmetic stays within `i128`.
pub open spec fn comet_quote_ok(state: CometPoolQuoteState, token_in: Seq<char>, token_out: Seq<char>, amount_in: u128) -> bool {
    match (record_for(state.records@, token_in), record_for(state.records@, token_out)) {
        (Some(i), Some(o)) => {
            &&& calc_out_ok(i, o, amount_in as i128, state.swap_fee)
            &&& calc_out_value(i, o, amount_in as i128, state.swap_fee) > 0 ==> {
                &&& i128::MIN <= (amount_in as i128) * 10_000 <= i128::MAX
                &&& i128::MIN <= 2 * i.balance <= i128::MAX
                &&& !((amount_in as i128) * 10_000 == i128::MIN && 2 * i.balance == -1)
            }
        },
        _ => true,
    }
}

fn find_record(records: &Vec<(String, CometRecord)>, token: &str) -> (r: Option<CometRecord>)
    ensures
        r == record_for(records@, token@),
{
    let mut i: usize = 0;
    assert(records@.skip(0) =~= records@);
    while i < records.len()
        invariant
            i <= records@.len(),
            record_for(records@.skip(i as int), token@) == record_for(records@, token@),
        decreases records.len() - i,
    {
        proof {
            assert(records@.skip(i as int).skip(1) =~= records@.skip(i + 1));
            assert(records@.skip(i as int)[0] == records@[i as int]);
        }
        if str_eq(records[i].0.as_str(), token) {
            return Some(records[i].1);
        }
        i = i + 1;
    }
    proof {
        assert(records@.skip(i as int).len() == 0);
    }
    None
}

fn div_toward_zero_i128(a: i128, b: i128) -> (q: i128)
    requires
        b != 0,
        !(a == i128::MIN && b == -1),
    ensures
        q == trunc_div(a as int, b as int),
{
    proof {
        let x = a as int;
        let y = b as int;
        if x >= 0 {
            if y > 0 {
                vstd::arithmetic::div_mod::lemma_div_is_ordered_by_denominator(x, 1, y);
                vstd::arithmetic::div_mod::lemma_div_pos_is_pos(x, y);
                assert(x / 1 == x);
            } else {
                assert(-x <= x / y <= 0) by (nonlinear_arith)
                    requires
                        x >= 0,
                        y < 0,
                ;
            }
        } else {
            if y > 0 {
                vstd::arithmetic::div_mod::lemma_div_is_ordered_by_denominator(-x, 1, y);
                vstd::arithmetic::div_mod::lemma_div_pos_is_pos(-x, y);
                assert((-x) / 1 == -x);
            } else if y == -1 {
                assert((-x) / y == x) by (nonlinear_arith)
                    requires
                        y == -1,
                ;
            } else {
                assert(x / 2 <= (-x) / y <= 0) by (nonlinear_arith)
                    requires
                        x < 0,
                        y <= -2,
                ;
            }
        }
    }
    a / b
}

/// Weighted-pool quote from hydrated state (Balancer V1 math).
pub fn quote_comet_pool(state: &CometPoolQuoteState, token_in: &str, token_out: &str, amount_in: u128) -> (r: Option<AdapterQuote>)
    requires
        state.well_formed(),
        comet_quote_ok(*state, token_in@, token_out@, amount_in),
    ensures
        r == comet_quote_value(*state, token_in@, token_out@, amount_in),
{
    let in_record = match find_record(&state.records, token_in) {
        Some(rec) => rec,
        None => return None,
    };
    let out_record = match find_record(&state.records, token_out) {
        Some(rec) => rec,
        None => return None,
    };
    let amount_out = calc_out_given_in(&in_record, &out_record, amount_in as i128, state.swap_fee);
    if amount_out <= 0 {
        return None;
    }
    let impact = div_toward_zero_i128(amount_in as i128 * 10_000, 2 * in_record.balance);
    let capped = if impact < 10_000 {
        impact
    } else {
        10_000
    };
    Some(
        AdapterQuote {
            amount_out: amount_out as u128,
            fee_bps: div_toward_zero_i128(state.swap_fee, 1000) as u32,
            price_impact_bps: capped as u32,
        },
    )
}


/// The XDR prefix of a contract address holding a 32-byte hash: the
/// `ScVal::Address` discriminant, then `ScAddress::Contract`.
pub open spec fn contract_marker() -> Seq<u8> {
    seq![0u8, 0u8, 0u8, 0x12u8, 0u8, 0u8, 0u8, 1u8]
}

/// The marker starts at byte `i` of `raw`.
pub open spec fn marker_at(raw: Seq<u8>, i: int) -> bool {
    0 <= i && i + 8 <= raw.len() && raw.subrange(i, i + 8) == contract_marker()
}

/// The last position the scan looks at: 40 bytes before the end, or the
/// start for a shorter input.
pub open spec fn last_scan_start(len: nat) -> int {
    if len >= 40 {
        len - 40
    } else {
        0
    }
}

/// Extract a Soroban contract hash from raw storage or event XDR: the 32
/// bytes after the first contract-address marker at a position from which
/// 40 bytes remain (the start, for a shorter input). An input shorter than
/// 40 bytes that starts with the marker has no hash after it and is not
/// accepted.
pub fn contract_hash_from_xdr_bytes(raw: &[u8]) -> (r: Option<[u8; 32]>)
    requires
        !(raw@.len() < 40 && marker_at(raw@, 0)),
    ensures
        match r {
            Some(h) => exists|i: int|
                0 <= i <= last_scan_start(raw@.len()) && #[trigger] marker_at(raw@, i) && (forall|j: int|
                    0 <= j < i ==> !marker_at(raw@, j)) && h@ == raw@.subrange(i + 8, i + 40),
            None => forall|i: int| 0 <= i <= last_scan_start(raw@.len()) ==> !#[trigger] marker_at(raw@, i),
        },
{
    let marker: [u8; 8] = [0, 0, 0, 0x12, 0, 0, 0, 1];
    let n: usize = raw.len();
    let last: usize = if raw.len() >= 40 {
        raw.len() - 40
    } else {
        0
    };
    let mut i: usize = 0;
    while i <= last
        invariant
            last as int == last_scan_start(raw@.len()),
            last <= raw@.len(),
            n == raw@.len(),
            i <= last + 1,
            marker@ == contract_marker(),
            !(raw@.len() < 40 && marker_at(raw@, 0)),
            forall|j: int| 0 <= j < i ==> !marker_at(raw@, j),
        decreases last + 1 - i,
    {
        let mut matches_here = raw.len() - i >= 8;
        let mut k: usize = 0;
        while matches_here && k < 8
            invariant
                i <= last,
                last <= raw@.len(),
                n == raw@.len(),
                k <= 8,
                marker@ == contract_marker(),
                matches_here ==> i + 8 <= raw@.len() && forall|m: int| 0 <= m < k ==> raw@[i + m] == marker@[m],
                !matches_here ==> !marker_at(raw@, i as int),
            decreases 8 - k,
        {
            if raw[i + k] != marker[k] {
                matches_here = false;
                proof {
                    assert(raw@.subrange(i as int, i + 8)[k as int] == raw@[i + k]);
                }
            }
            k = k + 1;
        }
        if matches_here {
            proof {
                assert(raw@.subrange(i as int, i + 8) =~= contract_marker());
                assert(marker_at(raw@, i as int));
            }
            let mut hash: [u8; 32] = [0u8; 32];
            let mut m: usize = 0;
            while m < 32
                invariant
                    i + 40 <= raw@.len(),
                    n == raw@.len(),
                    m <= 32,
                    forall|x: int| 0 <= x < m ==> hash@[x] == raw@[i + 8 + x],
                decreases 32 - m,
            {
                hash[m] = raw[i + 8 + m];
                m = m + 1;
            }
            proof {
                assert(hash@ =~= raw@.subrange(i + 8, i + 40));
            }
            return Some(hash);
        }
        i = i + 1;
    }
    None
}

} // verus!
