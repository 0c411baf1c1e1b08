//! Profit of a round trip in basis points of its input, and what a quoted
//! base/bridge pair gives.

use vstd::prelude::*;

use crate::bridge::{profit_value, RoundTripQuote};
use crate::stats::{wrap_inc, ArbStats};

verus! {

/// `min(delta * 10_000, u128::MAX) / amount_in`, capped at `i64::MAX`, with
/// the sign of `amount_out - amount_in`; 0 for a zero input.
pub open spec fn profit_bps_value(amount_in: u128, amount_out: u128) -> int {
    if amount_in == 0 {
        0
    } else {
        let delta: int = if amount_out >= amount_in {
            amount_out - amount_in
        } else {
            amount_in - amount_out
        };
        let scaled: int = if delta * 10_000 > u128::MAX {
            u128::MAX as int
        } else {
            delta * 10_000
        };
        let q = scaled / (amount_in as int);
        let magnitude: int = if q > i64::MAX {
            i64::MAX as int
        } else {
            q
        };
        if amount_out >= amount_in {
            magnitude
        } else {
            -magnitude
        }
    }
}

/// Round-trip profit in basis points of `amount_in` (negative for a loss).
pub fn compute_profit_bps(amount_in: u128, amount_out: u128) -> (r: i64)
    ensures
        r == profit_bps_value(amount_in, amount_out),
{
    if amount_in == 0 {
        return 0;
    }
    let (negative, delta) = if amount_out >= amount_in {
        (false, amount_out - amount_in)
    } else {
        (true, amount_in - amount_out)
    };
    let scaled: u128 = match delta.checked_mul(10_000) {
        Some(v) => v,
        None => u128::MAX,
    };
    let q = scaled / amount_in;
    let magnitude: i64 = if q > i64::MAX as u128 {
        i64::MAX
    } else {
        q as i64
    };
    if negative {
        -magnitude
    } else {
        magnitude
    }
}

/// `a - b` saturated into `i64`.
pub open spec fn sat_sub_i64(a: int, b: int) -> int {
    if a - b > i64::MAX {
        i64::MAX as int
    } else if a - b < i64::MIN {
        i64::MIN as int
    } else {
        a - b
    }
}

/// The profit in bps of `first_out` less that of `second_out`, both against
/// `amount_in`, saturated.
pub open spec fn bps_gap_value(amount_in: u128, first_out: u128, second_out: u128) -> int {
    sat_sub_i64(profit_bps_value(amount_in, first_out), profit_bps_value(amount_in, second_out))
}

/// The profit in bps of `first_out` less that of `second_out`, both against
/// `amount_in`, saturated.
pub fn bps_gap(amount_in: u128, first_out: u128, second_out: u128) -> (r: i64)
    ensures
        r == bps_gap_value(amount_in, first_out, second_out),
{
    let first = compute_profit_bps(amount_in, first_out);
    let second = compute_profit_bps(amount_in, second_out);
    let wide = first as i128 - second as i128;
    if wide > i64::MAX as i128 {
        i64::MAX
    } else if wide < i64::MIN as i128 {
        i64::MIN
    } else {
        wide as i64
    }
}

/// A profitable round trip found by the scanner.
#[derive(Debug, Clone)]
pub struct ArbOpportunity {
    pub quote: RoundTripQuote,
    pub profit_bps: i64,
    pub route_label: String,
}

/// A base token is quoted only when the most it may trade reaches the
/// smallest trade size.
pub fn worth_quoting(max_in: u128, min_amount_in: u128) -> (r: bool)
    ensures
        r == (max_in >= min_amount_in),
{
    max_in >= min_amount_in
}

/// What one base/bridge pair gives, from the round trips quoted for it:
/// `probe` at the probe size (`None` when that quote failed) and `sized`, the
/// best round trip of the size search (`None` when it was off or found
/// nothing). A failed probe is counted and gives nothing. Otherwise the sized
/// round trip, or else the probe, is an opportunity when its profit reaches
/// `min_profit` (counted as one), and is counted as unprofitable when not.
pub fn evaluate_bridge_pair(
    stats: &mut ArbStats,
    probe: Option<RoundTripQuote>,
    sized: Option<RoundTripQuote>,
    min_profit: u128,
) -> (r: Option<ArbOpportunity>)
    ensures
        probe is None ==> r is None && *final(stats) == (ArbStats {
            quote_failed: wrap_inc(old(stats).quote_failed),
            ..*old(stats)
        }),
        probe matches Some(p) ==> ({
            let q = match sized {
                Some(s) => s,
                None => p,
            };
            &&& profit_value(q.amount_in, q.amount_out) < min_profit ==> r is None && *final(stats) == (ArbStats {
                unprofitable_quotes: wrap_inc(old(stats).unprofitable_quotes),
                ..*old(stats)
            })
            &&& profit_value(q.amount_in, q.amount_out) >= min_profit ==> (r matches Some(o) && o.quote == q
                && o.profit_bps == profit_bps_value(q.amount_in, q.amount_out)
                && o.route_label@ == q.route_label_value() && *final(stats) == (ArbStats {
                opportunities: wrap_inc(old(stats).opportunities),
                ..*old(stats)
            }))
        }),
{
    let probe = match probe {
        Some(p) => p,
        None => {
            stats.quote_failed = stats.quote_failed.wrapping_add(1);
            return None;
        },
    };
    let quote = match sized {
        Some(s) => s,
        None => probe,
    };
    let profit = quote.profit();
    if profit < min_profit {
        stats.unprofitable_quotes = stats.unprofitable_quotes.wrapping_add(1);
        return None;
    }
    stats.opportunities = stats.opportunities.wrapping_add(1);
    let profit_bps = compute_profit_bps(quote.amount_in, quote.amount_out);
    let route_label = quote.route_label();
    Some(ArbOpportunity { quote, profit_bps, route_label })
}

} // verus!
