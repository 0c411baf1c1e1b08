//! Size search for a round trip: the candidate input sizes between the
//! smallest and the largest trade, and the pick of the most profitable
//! quote.

use vstd::prelude::*;

use crate::bridge::{profit_value, RoundTripQuote};

verus! {

/// The profit of a quoted round trip.
pub open spec fn quote_profit(q: RoundTripQuote) -> u128 {
    profit_value(q.amount_in, q.amount_out)
}

/// The quote with the highest profit, the earliest of them on a tie; `None`
/// for no quote. The quotes are those obtained for the candidate sizes, in
/// candidate order (a size whose quote failed is left out).
pub fn optimize_round_trip(quotes: Vec<RoundTripQuote>) -> (r: Option<RoundTripQuote>)
    ensures
        r is None <==> quotes@.len() == 0,
        r matches Some(q) ==> exists|k: int|
            0 <= k < quotes@.len() && quotes@[k] == q && (forall|j: int|
                0 <= j < quotes@.len() ==> quote_profit(#[trigger] quotes@[j]) <= quote_profit(q)) && (forall|j: int|
                0 <= j < k ==> quote_profit(#[trigger] quotes@[j]) < quote_profit(q)),
{
    if quotes.len() == 0 {
        return None;
    }
    let mut best: usize = 0;
    let mut best_profit = quotes[0].profit();
    let mut i: usize = 1;
    while i < quotes.len()
        invariant
            1 <= i <= quotes@.len(),
            best < i,
            best_profit == quote_profit(quotes@[best as int]),
            forall|j: int| 0 <= j < i ==> quote_profit(#[trigger] quotes@[j]) <= best_profit,
            forall|j: int| 0 <= j < best ==> quote_profit(#[trigger] quotes@[j]) < best_profit,
        decreases quotes.len() - i,
    {
        let p = quotes[i].profit();
        if p > best_profit {
            best = i;
            best_profit = p;
        }
        i = i + 1;
    }
    let ghost all = quotes@;
    let mut quotes = quotes;
    let q = quotes.remove(best);
    proof {
        assert(all[best as int] == q);
    }
    Some(q)
}

/// `v` brought into `[lo, hi]`.
pub open spec fn clamp_value(v: u128, lo: u128, hi: u128) -> u128 {
    if v < lo {
        lo
    } else if v > hi {
        hi
    } else {
        v
    }
}

/// Each entry below the next.
pub open spec fn strictly_increasing(s: Seq<u128>) -> bool {
    forall|i: int, j: int| 0 <= i < j < s.len() ==> s[i] < s[j]
}

/// A candidate size: an endpoint, or an interior point brought into range.
pub open spec fn candidate_member(min_in: u128, max_in: u128, interior: Seq<u128>, x: u128) -> bool {
    x == min_in || x == max_in || exists|i: int|
        0 <= i < interior.len() && clamp_value(#[trigger] interior[i], min_in, max_in) == x
}

fn insert_sorted(v: &mut Vec<u128>, x: u128)
    requires
        strictly_increasing(old(v)@),
    ensures
        strictly_increasing(final(v)@),
        forall|y: u128| final(v)@.contains(y) <==> (old(v)@.contains(y) || y == x),
        final(v)@.len() <= old(v)@.len() + 1,
{
    let mut j: usize = 0;
    while j < v.len() && v[j] < x
        invariant
            j <= v@.len(),
            forall|k: int| 0 <= k < j ==> v@[k] < x,
        decreases v.len() - j,
    {
        j = j + 1;
    }
    if j < v.len() && v[j] == x {
        return;
    }
    let ghost before = v@;
    v.insert(j, x);
    proof {
        let after = v@;
        assert(after =~= before.subrange(0, j as int).push(x) + before.subrange(j as int, before.len() as int));
        assert forall|a: int, b: int| 0 <= a < b < after.len() implies after[a] < after[b] by {
            if b < j {
                assert(after[a] == before[a] && after[b] == before[b]);
            } else if b == j {
                assert(after[a] == before[a]);
            } else if a < j {
                assert(after[a] == before[a] && after[b] == before[b - 1]);
                assert(before[j as int] >= x);
                if b - 1 > j {
                    assert(before[j as int] < before[b - 1]);
                }
            } else if a == j {
                assert(after[b] == before[b - 1]);
                assert(before[j as int] != x);
                if b - 1 > j {
                    assert(before[j as int] < before[b - 1]);
                }
            } else {
                assert(after[a] == before[a - 1] && after[b] == before[b - 1]);
            }
        }
        assert forall|y: u128| after.contains(y) <==> (before.contains(y) || y == x) by {
            if after.contains(y) {
                let k = choose|k: int| 0 <= k < after.len() && after[k] == y;
                if k < j {
                    assert(before[k] == y);
                } else if k > j {
                    assert(before[k - 1] == y);
                }
            }
            if before.contains(y) {
                let k = choose|k: int| 0 <= k < before.len() && before[k] == y;
                if k < j {
                    assert(after[k] == y);
                } else {
                    assert(after[k + 1] == y);
                }
            }
            if y == x {
                assert(after[j as int] == y);
            }
        }
    }
}

/// The candidate input sizes between `min_in` and `max_in`, endpoints
/// included, in increasing order and each once. Empty for no sample or an
/// empty range; just `min_in` for one sample or a single size. Otherwise the
/// endpoints and the `interior` points (the log-spaced sizes strictly between
/// them, rounded, that the caller computes in floating point), each brought
/// into range.
pub fn build_candidate_inputs(min_in: u128, max_in: u128, sample_count: usize, interior: &[u128]) -> (r: Vec<u128>)
    ensures
        (sample_count == 0 || min_in == 0 || max_in == 0 || min_in > max_in) ==> r@ == Seq::<u128>::empty(),
        !(sample_count == 0 || min_in == 0 || max_in == 0 || min_in > max_in) && (sample_count == 1 || min_in
            == max_in) ==> r@ == seq![min_in],
        !(sample_count == 0 || min_in == 0 || max_in == 0 || min_in > max_in || sample_count == 1 || min_in
            == max_in) ==> {
            &&& strictly_increasing(r@)
            &&& forall|x: u128| #[trigger] r@.contains(x) <==> candidate_member(min_in, max_in, interior@, x)
            &&& r@.len() >= 2 && r@[0] == min_in && r@.last() == max_in
            &&& r@.len() <= interior@.len() + 2
            &&& interior@.len() + 2 <= sample_count ==> r@.len() <= sample_count
        },
{
    if sample_count == 0 || min_in == 0 || max_in == 0 || min_in > max_in {
        return Vec::new();
    }
    if sample_count == 1 || min_in == max_in {
        return vec![min_in];
    }
    let mut out: Vec<u128> = vec![min_in];
    proof {
        assert forall|y: u128| out@.contains(y) <==> y == min_in by {
            if y == min_in {
                assert(out@[0] == y);
            }
        }
    }
    let mut i: usize = 0;
    while i < interior.len()
        invariant
            min_in < max_in,
            i <= interior@.len(),
            strictly_increasing(out@),
            out@.len() <= i + 1,
            forall|y: u128| #[trigger] out@.contains(y) <==> (y == min_in || exists|k: int|
                0 <= k < i && clamp_value(#[trigger] interior@[k], min_in, max_in) == y),
        decreases interior.len() - i,
    {
        let v = interior[i];
        let c = if v < min_in {
            min_in
        } else if v > max_in {
            max_in
        } else {
            v
        };
        let ghost before = out@;
        insert_sorted(&mut out, c);
        proof {
            assert forall|y: u128| #[trigger] out@.contains(y) <==> (y == min_in || exists|k: int|
                0 <= k < i + 1 && clamp_value(#[trigger] interior@[k], min_in, max_in) == y) by {
                if y == c {
                    assert(clamp_value(interior@[i as int], min_in, max_in) == y);
                }
                if exists|k: int| 0 <= k < i + 1 && clamp_value(#[trigger] interior@[k], min_in, max_in) == y {
                    let k = choose|k: int| 0 <= k < i + 1 && clamp_value(#[trigger] interior@[k], min_in, max_in) == y;
                    if k < i {
                        assert(before.contains(y));
                    }
                }
            }
        }
        i = i + 1;
    }
    insert_sorted(&mut out, max_in);
    proof {
        let s = out@;
        assert forall|x: u128| #[trigger] s.contains(x) <==> candidate_member(min_in, max_in, interior@, x) by {}
        assert(s.contains(min_in));
        assert(s.contains(max_in));
        assert forall|k: int| 0 <= k < s.len() implies min_in <= #[trigger] s[k] <= max_in by {
            assert(s.contains(s[k]));
            if s[k] != min_in && s[k] != max_in {
                let m = choose|m: int| 0 <= m < interior@.len() && clamp_value(#[trigger] interior@[m], min_in, max_in) == s[k];
            }
        }
        let a = choose|k: int| 0 <= k < s.len() && s[k] == min_in;
        let b = choose|k: int| 0 <= k < s.len() && s[k] == max_in;
        assert(a != b);
        if a != 0 {
            assert(s[0] < s[a]);
        }
        if b != s.len() - 1 {
            assert(s[b] < s[s.len() - 1]);
        }
    }
    out
}

} // verus!
