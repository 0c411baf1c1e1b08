//! Pieces of the on-chain arbitrage call: the swap steps, the router name of
//! each quote source, and the break-even floor of the round trip.

use vstd::prelude::*;
use vstd::string::StringExecFns;

use crate::text::str_eq;

verus! {

/// One swap of the arbitrage call.
#[derive(Debug, Clone)]
pub struct ArbSwapStep {
    /// The quote venue the step came from (`aquarius_clmm`, `soroswap`, ...).
    pub venue_type: String,
    /// The router's name for the venue.
    pub dex_type: String,
    pub pool_address: String,
    pub token_in: String,
    pub token_out: String,
    pub in_idx: u32,
    pub out_idx: u32,
}

/// A quote source that the arbitrage contract cannot route.
#[derive(Debug, Clone)]
pub struct UnsupportedDexSource {
    pub source: String,
}

/// The contract's dex type for a quote source: Aquarius xy=k, stableswap and
/// CLMM pools share one swap entry point.
pub open spec fn dex_type_value(source: Seq<char>) -> Option<Seq<char>> {
    if source == "aquarius"@ || source == "aquarius_clmm"@ {
        Some("aquarius"@)
    } else if source == "soroswap"@ {
        Some("soroswap"@)
    } else if source == "phoenix"@ {
        Some("phoenix"@)
    } else if source == "sushi"@ {
        Some("sushi"@)
    } else if source == "comet"@ {
        Some("comet"@)
    } else {
        None
    }
}

impl UnsupportedDexSource {
    /// `unsupported dex source: <source>`.
    pub fn message(&self) -> (r: String)
        ensures
            r@ == "unsupported dex source: "@ + self.source@,
    {
        let mut m = "unsupported dex source: ".to_owned();
        m.append(self.source.as_str());
        m
    }
}

pub fn source_to_dex_type(source: &str) -> (r: Result<&'static str, UnsupportedDexSource>)
    ensures
        r matches Ok(t) ==> dex_type_value(source@) == Some(t@),
        r matches Err(e) ==> dex_type_value(source@) is None && e.source@ == source@,
{
    if str_eq(source, "aquarius") || str_eq(source, "aquarius_clmm") {
        Ok("aquarius")
    } else if str_eq(source, "soroswap") {
        Ok("soroswap")
    } else if str_eq(source, "phoenix") {
        Ok("phoenix")
    } else if str_eq(source, "sushi") {
        Ok("sushi")
    } else if str_eq(source, "comet") {
        Ok("comet")
    } else {
        Err(UnsupportedDexSource { source: source.to_owned() })
    }
}

/// The least output that returns more than went in: `amount_in + 1`,
/// saturating, capped at `i128::MAX`.
pub fn min_amount_out_break_even(amount_in: u128) -> (r: i128)
    ensures
        r == (if amount_in + 1 > i128::MAX {
            i128::MAX as int
        } else {
            amount_in + 1
        }),
{
    let bumped = amount_in.saturating_add(1);
    if bumped > i128::MAX as u128 {
        i128::MAX
    } else {
        bumped as i128
    }
}

/// The sum of some amounts.
pub open spec fn amounts_sum(s: Seq<u128>) -> int
    decreases s.len(),
{
    if s.len() == 0 {
        0
    } else {
        amounts_sum(s.drop_last()) + s.last()
    }
}

proof fn lemma_sum_push(s: Seq<u128>, x: u128)
    ensures
        amounts_sum(s.push(x)) == amounts_sum(s) + x,
{
    assert(s.push(x).drop_last() =~= s);
}

proof fn lemma_sum_update(s: Seq<u128>, j: int, x: u128)
    requires
        0 <= j < s.len(),
    ensures
        amounts_sum(s.update(j, x)) == amounts_sum(s) - s[j] + x,
    decreases s.len(),
{
    if j == s.len() - 1 {
        assert(s.update(j, x).drop_last() =~= s.drop_last());
    } else {
        lemma_sum_update(s.drop_last(), j, x);
        assert(s.update(j, x).drop_last() =~= s.drop_last().update(j, x));
    }
}

proof fn lemma_sum_nonneg_bound(s: Seq<u128>, j: int)
    requires
        0 <= j < s.len(),
    ensures
        s[j] <= amounts_sum(s),
        amounts_sum(s) >= 0,
    decreases s.len(),
{
    if s.len() > 0 {
        if j < s.len() - 1 {
            lemma_sum_nonneg_bound(s.drop_last(), j);
        } else if s.len() > 1 {
            lemma_sum_nonneg_bound(s.drop_last(), 0);
        }
    }
}

/// A sub-order's share of `target` when its quoted amounts sum to
/// `current`: `amount * target / current` (the product saturating), at
/// least 1.
pub open spec fn scaled_amount(amount: u128, target: u128, current: u128) -> u128 {
    let p: int = if amount * target > u128::MAX { u128::MAX as int } else { amount * target };
    let q = p / (current as int);
    (if q < 1 { 1 } else { q }) as u128
}

/// The shares of all sub-orders but the last.
pub open spec fn scaled_prefix(amounts: Seq<u128>, target: u128, current: u128) -> Seq<u128> {
    Seq::new((amounts.len() - 1) as nat, |i: int| scaled_amount(amounts[i], target, current))
}

/// The shares kept when each is capped by what the target has left after
/// the ones before it.
pub open spec fn capped_prefix(scaled: Seq<u128>, target: u128) -> Seq<u128>
    decreases scaled.len(),
{
    if scaled.len() == 0 {
        seq![]
    } else {
        let p = capped_prefix(scaled.drop_last(), target);
        let room = target - amounts_sum(p);
        p.push(if scaled.last() <= room { scaled.last() } else { room as u128 })
    }
}

proof fn lemma_capped_prefix(scaled: Seq<u128>, target: u128)
    ensures
        0 <= amounts_sum(capped_prefix(scaled, target)) <= target,
        capped_prefix(scaled, target).len() == scaled.len(),
        forall|i: int| 0 <= i < scaled.len() ==> #[trigger] capped_prefix(scaled, target)[i] <= scaled[i],
        amounts_sum(scaled) <= target ==> capped_prefix(scaled, target) == scaled,
    decreases scaled.len(),
{
    if scaled.len() > 0 {
        let d = scaled.drop_last();
        lemma_capped_prefix(d, target);
        let p = capped_prefix(d, target);
        let room = target - amounts_sum(p);
        let x: u128 = if scaled.last() <= room { scaled.last() } else { room as u128 };
        lemma_sum_push(p, x);
        let c = capped_prefix(scaled, target);
        assert forall|i: int| 0 <= i < scaled.len() implies #[trigger] c[i] <= scaled[i] by {
            if i < scaled.len() - 1 {
                assert(c[i] == p[i] && d[i] == scaled[i]);
            }
        }
        if amounts_sum(scaled) <= target {
            if d.len() > 0 {
                lemma_sum_nonneg_bound(d, 0);
            }
            assert(amounts_sum(d) <= target);
            assert(scaled =~= d.push(scaled.last()));
        }
    }
}

/// Leg-out amounts normalized to the leg total: unchanged when they already
/// sum to it; all of it on the last sub-order when they sum to 0; else each
/// sub-order but the last takes its share (capped by what is left) and the
/// last takes the rest.
pub open spec fn normalized_amounts(amounts: Seq<u128>, target: u128) -> Seq<u128> {
    let current = amounts_sum(amounts);
    if current == target {
        amounts
    } else if current == 0 {
        Seq::new((amounts.len() - 1) as nat, |i: int| 0u128).push(target)
    } else {
        let cp = capped_prefix(scaled_prefix(amounts, target, current as u128), target);
        cp.push((target - amounts_sum(cp)) as u128)
    }
}

/// Leg-back weights: the out-leg's per-sub-route quoted outputs where the
/// two legs split alike (more than one sub-route each) and the output is
/// known, else the back quote's own amounts; a zero weight becomes 1.
pub open spec fn back_weight(
    out_expected: Seq<u128>,
    back_amounts: Seq<u128>,
    i: int,
) -> u128 {
    let w = if out_expected.len() == back_amounts.len() && out_expected.len() > 1 && out_expected[i] > 0 {
        out_expected[i]
    } else {
        back_amounts[i]
    };
    if w == 0 {
        1
    } else {
        w
    }
}

proof fn lemma_zeros_then_target(n: nat, target: u128)
    ensures
        amounts_sum(Seq::new(n, |i: int| 0u128).push(target)) == target,
    decreases n,
{
    let z = Seq::new(n, |i: int| 0u128);
    lemma_sum_push(z, target);
    lemma_zeros_sum(n);
}

proof fn lemma_zeros_sum(n: nat)
    ensures
        amounts_sum(Seq::new(n, |i: int| 0u128)) == 0,
    decreases n,
{
    if n > 0 {
        lemma_zeros_sum((n - 1) as nat);
        assert(Seq::new(n, |i: int| 0u128).drop_last() =~= Seq::new((n - 1) as nat, |i: int| 0u128));
    }
}

/// The amounts of the round-trip call: the leg-out sub-route amounts,
/// which sum exactly to `amount_in` (the contract requires it), and the
/// leg-back weights, each at least 1 (the aggregator rescales them to the
/// bridge amount that leg-out yields on chain).
pub fn prepare_round_trip_amounts(
    amount_in: u128,
    out_amounts: &[u128],
    out_expected: &[u128],
    back_amounts: &[u128],
) -> (r: (Vec<u128>, Vec<u128>))
    requires
        amount_in > 0,
        out_amounts@.len() > 0,
        out_expected@.len() == out_amounts@.len(),
        amounts_sum(out_amounts@) <= u128::MAX,
    ensures
        r.0@ == normalized_amounts(out_amounts@, amount_in),
        r.0@.len() == out_amounts@.len(),
        amounts_sum(r.0@) == amount_in,
        r.1@.len() == back_amounts@.len(),
        forall|i: int| 0 <= i < back_amounts@.len() ==> #[trigger] r.1@[i] == back_weight(out_expected@, back_amounts@, i),
        forall|i: int| 0 <= i < back_amounts@.len() ==> #[trigger] r.1@[i] >= 1,
{
    let n = out_amounts.len();
    // The current total.
    let mut current: u128 = 0;
    let mut k: usize = 0;
    while k < n
        invariant
            n == out_amounts@.len(),
            k <= n,
            amounts_sum(out_amounts@) <= u128::MAX,
            current == amounts_sum(out_amounts@.take(k as int)),
        decreases n - k,
    {
        proof {
            assert(out_amounts@.take(k + 1) =~= out_amounts@.take(k as int).push(out_amounts@[k as int]));
            lemma_sum_push(out_amounts@.take(k as int), out_amounts@[k as int]);
            lemma_prefix_sum_le(out_amounts@, k + 1);
        }
        current = current + out_amounts[k];
        k = k + 1;
    }
    proof {
        assert(out_amounts@.take(n as int) =~= out_amounts@);
    }
    let mut out: Vec<u128> = Vec::new();
    if current == amount_in {
        let mut i: usize = 0;
        while i < n
            invariant
                n == out_amounts@.len(),
                i <= n,
                out@ == out_amounts@.take(i as int),
            decreases n - i,
        {
            out.push(out_amounts[i]);
            proof {
                assert(out@ =~= out_amounts@.take(i + 1));
            }
            i = i + 1;
        }
        proof {
            assert(out@ =~= out_amounts@);
        }
    } else if current == 0 {
        let mut i: usize = 0;
        while i + 1 < n
            invariant
                n == out_amounts@.len(),
                n >= 1,
                i < n,
                out@ == Seq::new(i as nat, |j: int| 0u128),
            decreases n - i,
        {
            out.push(0);
            proof {
                assert(out@ =~= Seq::new((i + 1) as nat, |j: int| 0u128));
            }
            i = i + 1;
        }
        out.push(amount_in);
        proof {
            lemma_zeros_then_target((n - 1) as nat, amount_in);
        }
    } else {
        let ghost scaled = scaled_prefix(out_amounts@, amount_in, current);
        let mut used: u128 = 0;
        let mut i: usize = 0;
        while i + 1 < n
            invariant
                n == out_amounts@.len(),
                n >= 1,
                i < n,
                current > 0,
                scaled == scaled_prefix(out_amounts@, amount_in, current),
                out@ == capped_prefix(scaled.take(i as int), amount_in),
                used == amounts_sum(out@),
                used <= amount_in,
            decreases n - i,
        {
            let a = out_amounts[i];
            let product = match a.checked_mul(amount_in) {
                Some(v) => v,
                None => u128::MAX,
            };
            let q = product / current;
            let share = if q < 1 { 1 } else { q };
            proof {
                assert(share == scaled[i as int]);
                assert(scaled.take(i + 1).drop_last() =~= scaled.take(i as int));
            }
            let room = amount_in - used;
            let kept = if share <= room { share } else { room };
            let ghost before = out@;
            out.push(kept);
            proof {
                lemma_sum_push(before, kept);
                lemma_capped_prefix(scaled.take(i as int), amount_in);
            }
            used = used + kept;
            i = i + 1;
        }
        proof {
            assert(scaled.take(i as int) =~= scaled);
            lemma_capped_prefix(scaled, amount_in);
        }
        let ghost before = out@;
        out.push(amount_in - used);
        proof {
            lemma_sum_push(before, (amount_in - used) as u128);
        }
    }
    let aligned = out_expected.len() == back_amounts.len() && out_expected.len() > 1;
    let mut back: Vec<u128> = Vec::new();
    let mut i: usize = 0;
    while i < back_amounts.len()
        invariant
            i <= back_amounts@.len(),
            aligned == (out_expected@.len() == back_amounts@.len() && out_expected@.len() > 1),
            back@.len() == i,
            forall|j: int| 0 <= j < i ==> #[trigger] back@[j] == back_weight(out_expected@, back_amounts@, j),
        decreases back_amounts.len() - i,
    {
        let w = if aligned && out_expected[i] > 0 {
            out_expected[i]
        } else {
            back_amounts[i]
        };
        back.push(if w == 0 { 1 } else { w });
        i = i + 1;
    }
    (out, back)
}

proof fn lemma_prefix_sum_le(s: Seq<u128>, k: int)
    requires
        0 <= k <= s.len(),
    ensures
        amounts_sum(s.take(k)) <= amounts_sum(s),
    decreases s.len() - k,
{
    if k < s.len() {
        lemma_prefix_sum_le(s, k + 1);
        assert(s.take(k + 1) =~= s.take(k).push(s[k]));
        lemma_sum_push(s.take(k), s[k]);
    } else {
        assert(s.take(k) =~= s);
    }
}

/// The sum of some amounts, or `None` when it does not fit in `u128`.
pub fn amounts_sum_exec(amounts: &[u128]) -> (r: Option<u128>)
    ensures
        r matches Some(v) ==> v == amounts_sum(amounts@),
        r is None ==> amounts_sum(amounts@) > u128::MAX,
{
    let mut total: u128 = 0;
    let mut k: usize = 0;
    while k < amounts.len()
        invariant
            k <= amounts@.len(),
            total == amounts_sum(amounts@.take(k as int)),
        decreases amounts.len() - k,
    {
        proof {
            assert(amounts@.take(k + 1) =~= amounts@.take(k as int).push(amounts@[k as int]));
            lemma_sum_push(amounts@.take(k as int), amounts@[k as int]);
        }
        match total.checked_add(amounts[k]) {
            Some(t) => total = t,
            None => {
                proof {
                    lemma_prefix_sum_le(amounts@, k + 1);
                }
                return None;
            },
        }
        k = k + 1;
    }
    proof {
        assert(amounts@.take(k as int) =~= amounts@);
    }
    Some(total)
}

} // verus!
