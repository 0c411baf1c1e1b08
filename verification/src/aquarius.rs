//! Local quotes for Aquarius pools: constant product for volatile pools and
//! the N-coin stableswap invariant for stable pools.

use vstd::prelude::*;

use crate::stable_math::{dy_safe, dy_value, StablePool};
use crate::text::{first_index, position_of, str_eq};

verus! {

/// A quote for one hop through a pool.
#[derive(Debug, Clone, Copy, PartialEq, Eq)]
pub struct AdapterQuote {
    pub amount_out: u128,
    pub fee_bps: u32,
    pub price_impact_bps: u32,
}

/// On-chain Aquarius pool state for local quotes (stable + volatile).
#[derive(Debug, Clone)]
pub struct AquariusPoolQuoteState {
    pub pool_address: String,
    /// Token addresses in on-chain order (matches the reserve indices).
    pub tokens: Vec<String>,
    pub reserves: Vec<u128>,
    pub fee_bps: u32,
    pub is_stable: bool,
    pub amp: u128,
}

/// The Aquarius quote formulas.
pub struct AquariusAdapter {}

/// Constant-product output with the fee taken off the input first.
pub open spec fn constant_product_value(amount_in: u128, reserve_in: u128, reserve_out: u128, fee_bps: u32) -> int {
    if reserve_in == 0 || reserve_out == 0 || amount_in == 0 {
        0
    } else {
        let in_after_fee = amount_in * (10_000 - fee_bps) / 10_000;
        in_after_fee * reserve_out / (reserve_in + in_after_fee)
    }
}

/// The constant-product formula stays within `u128` (and the fee is at most
/// 100%).
pub open spec fn constant_product_safe(amount_in: u128, reserve_in: u128, reserve_out: u128, fee_bps: u32) -> bool {
    reserve_in == 0 || reserve_out == 0 || amount_in == 0 || {
        let in_after_fee = amount_in * (10_000 - fee_bps) / 10_000;
        &&& fee_bps <= 10_000
        &&& amount_in * (10_000 - fee_bps) <= u128::MAX
        &&& in_after_fee * reserve_out <= u128::MAX
        &&& reserve_in + in_after_fee <= u128::MAX
    }
}

/// Seven decimals for each of `n` tokens (all Stellar tokens have seven).
pub open spec fn seven_decimals(n: nat) -> Seq<u32> {
    Seq::new(n, |k: int| 7u32)
}

/// Stableswap output over all reserves of a pool of seven-decimal tokens.
pub open spec fn stable_quote_value(reserves: Seq<u128>, in_idx: int, out_idx: int, amount_in: u128, fee_bps: u32, amp: u128) -> int {
    if reserves.len() == 0 || in_idx >= reserves.len() || out_idx >= reserves.len() {
        0
    } else {
        dy_value(reserves, seven_decimals(reserves.len()), amp, fee_bps, in_idx, out_idx, amount_in)
    }
}

/// The stableswap computation stays within `u128`.
pub open spec fn stable_quote_safe(reserves: Seq<u128>, in_idx: int, out_idx: int, amount_in: u128, fee_bps: u32, amp: u128) -> bool {
    reserves.len() == 0 || in_idx >= reserves.len() || out_idx >= reserves.len()
        || dy_safe(reserves, seven_decimals(reserves.len()), amp, fee_bps, in_idx, out_idx, amount_in)
}

/// Price impact in basis points: the input against twice the input reserve,
/// capped at 100%.
pub open spec fn price_impact_value(amount_in: u128, reserve_in: u128) -> int {
    let raw = amount_in * 10_000 / (2 * reserve_in);
    if raw < 10_000 {
        raw
    } else {
        10_000
    }
}

/// Output of a hop, before the zero check: stable or constant product.
pub open spec fn hop_output(state: AquariusPoolQuoteState, i: int, o: int, amount_in: u128) -> int {
    let res = state.reserves@;
    if state.is_stable {
        stable_quote_value(res, i, o, amount_in, state.fee_bps, state.amp)
    } else {
        constant_product_value(amount_in, res[i], res[o], state.fee_bps)
    }
}

/// The pair of token indices that a quote uses, when the request is not
/// refused before any arithmetic.
pub open spec fn quote_indices(state: AquariusPoolQuoteState, token_in: Seq<char>, token_out: Seq<char>, amount_in: u128) -> Option<(int, int)> {
    let toks = state.tokens.deep_view();
    let res = state.reserves@;
    if amount_in == 0 || res.len() == 0 {
        None
    } else {
        match (first_index(toks, token_in), first_index(toks, token_out)) {
            (Some(i), Some(o)) => if i == o || i >= res.len() || res[i] == 0 || (!state.is_stable && o >= res.len()) {
                None
            } else {
                Some((i, o))
            },
            _ => None,
        }
    }
}

/// The quote for a hop through an Aquarius pool: `None` for a zero input, an
/// empty pool, an unknown or repeated token, an empty input reserve or a
/// zero output.
pub open spec fn quote_aquarius_value(state: AquariusPoolQuoteState, token_in: Seq<char>, token_out: Seq<char>, amount_in: u128) -> Option<AdapterQuote> {
    match quote_indices(state, token_in, token_out, amount_in) {
        Some((i, o)) => {
            let out = hop_output(state, i, o, amount_in);
            if out == 0 {
                None
            } else {
                Some(
                    AdapterQuote {
                        amount_out: out as u128,
                        fee_bps: state.fee_bps,
                        price_impact_bps: price_impact_value(amount_in, state.reserves@[i]) as u32,
                    },
                )
            }
        },
        None => None,
    }
}

/// The quote's arithmetic stays within `u128`.
pub open spec fn quote_aquarius_safe(state: AquariusPoolQuoteState, token_in: Seq<char>, token_out: Seq<char>, amount_in: u128) -> bool {
    match quote_indices(state, token_in, token_out, amount_in) {
        Some((i, o)) => {
            let res = state.reserves@;
            &&& (if state.is_stable {
                stable_quote_safe(res, i, o, amount_in, state.fee_bps, state.amp)
            } else {
                constant_product_safe(amount_in, res[i], res[o], state.fee_bps)
            })
            &&& (hop_output(state, i, o, amount_in) != 0 ==> amount_in * 10_000 <= u128::MAX && 2 * res[i] <= u128::MAX)
        },
        None => true,
    }
}

impl AquariusAdapter {
    /// Constant product quote: the input less `fee_bps` against the reserves;
    /// 0 when an input or a reserve is 0.
    pub fn constant_product_quote(amount_in: u128, reserve_in: u128, reserve_out: u128, fee_bps: u32) -> (r: u128)
        requires
            constant_product_safe(amount_in, reserve_in, reserve_out, fee_bps),
        ensures
            r == constant_product_value(amount_in, reserve_in, reserve_out, fee_bps),
    {
        if reserve_in == 0 || reserve_out == 0 || amount_in == 0 {
            return 0;
        }
        let in_after_fee = amount_in * (10_000 - fee_bps as u128) / 10_000;
        let numerator = in_after_fee * reserve_out;
        let denominator = reserve_in + in_after_fee;
        numerator / denominator
    }

    /// Stableswap quote over all reserves of a pool of seven-decimal tokens;
    /// 0 for an empty pool or an index out of range.
    pub fn stable_swap_quote_multi(reserves: &[u128], in_idx: usize, out_idx: usize, amount_in: u128, fee_bps: u32, amp: u128) -> (r: u128)
        requires
            stable_quote_safe(reserves@, in_idx as int, out_idx as int, amount_in, fee_bps, amp),
        ensures
            r == stable_quote_value(reserves@, in_idx as int, out_idx as int, amount_in, fee_bps, amp),
    {
        if reserves.len() == 0 || in_idx >= reserves.len() || out_idx >= reserves.len() {
            return 0;
        }
        let decimals: Vec<u32> = vec![7; reserves.len()];
        assert(decimals@ =~= seven_decimals(reserves@.len()));
        let pool = StablePool { reserves: vstd::slice::slice_to_vec(reserves), decimals, amp, fee_bps };
        pool.get_dy(in_idx, out_idx, amount_in)
    }
}

/// Quote a hop using full pool reserves and stable/volatile math.
pub fn quote_aquarius_pool(state: &AquariusPoolQuoteState, token_in: &str, token_out: &str, amount_in: u128) -> (r: Option<AdapterQuote>)
    requires
        quote_aquarius_safe(*state, token_in@, token_out@, amount_in),
    ensures
        r == quote_aquarius_value(*state, token_in@, token_out@, amount_in),
{
    if amount_in == 0 || state.reserves.len() == 0 {
        return None;
    }
    let in_idx = match position_of(&state.tokens, token_in) {
        Some(i) => i,
        None => return None,
    };
    let out_idx = match position_of(&state.tokens, token_out) {
        Some(i) => i,
        None => return None,
    };
    if in_idx == out_idx {
        return None;
    }
    if in_idx >= state.reserves.len() {
        return None;
    }
    let reserve_in = state.reserves[in_idx];
    if reserve_in == 0 {
        return None;
    }
    let amount_out = if state.is_stable {
        AquariusAdapter::stable_swap_quote_multi(
            state.reserves.as_slice(),
            in_idx,
            out_idx,
            amount_in,
            state.fee_bps,
            state.amp,
        )
    } else {
        if out_idx >= state.reserves.len() {
            return None;
        }
        let reserve_out = state.reserves[out_idx];
        AquariusAdapter::constant_product_quote(amount_in, reserve_in, reserve_out, state.fee_bps)
    };
    if amount_out == 0 {
        return None;
    }
    let impact = amount_in * 10_000 / (2 * reserve_in);
    let price_impact_bps: u32 = if impact < 10_000 {
        impact as u32
    } else {
        10_000
    };
    Some(AdapterQuote { amount_out, fee_bps: state.fee_bps, price_impact_bps })
}

/// Amplification used for a stable pool whose own is unknown.
pub const DEFAULT_STABLE_AMP: u128 = 100;

/// What the adapter caches of a pool: kind, fee, all tokens and reserves in
/// on-chain order, and the amplification.
#[derive(Debug, Clone)]
pub struct PoolMeta {
    pub is_stable: bool,
    pub fee_bps: u32,
    pub all_tokens: Vec<String>,
    pub all_reserves: Vec<u128>,
    pub amp: u128,
}

impl PoolMeta {
    /// The assumption for a pool not cached yet: volatile, 0.3%, nothing
    /// known of its tokens.
    pub fn unknown() -> (r: Self)
        ensures
            !r.is_stable,
            r.fee_bps == 30,
            r.all_tokens@.len() == 0,
            r.all_reserves@.len() == 0,
            r.amp == DEFAULT_STABLE_AMP,
    {
        PoolMeta { is_stable: false, fee_bps: 30, all_tokens: Vec::new(), all_reserves: Vec::new(), amp: DEFAULT_STABLE_AMP }
    }
}

/// The reserves of a two-token pair as last read.
#[derive(Debug, Clone)]
pub struct PairReserves {
    pub token_a: String,
    pub token_b: String,
    pub reserve_a: Option<u128>,
    pub reserve_b: Option<u128>,
}

/// The pair behind an optional reference.
pub open spec fn pair_value(pair: Option<&PairReserves>) -> Option<PairReserves> {
    match pair {
        Some(p) => Some(*p),
        None => None,
    }
}

/// The cached metadata lists every token with a reserve, and some reserve
/// is not empty.
pub open spec fn meta_usable(meta: PoolMeta) -> bool {
    &&& meta.all_tokens@.len() >= 2
    &&& meta.all_reserves@.len() == meta.all_tokens@.len()
    &&& exists|k: int| 0 <= k < meta.all_reserves@.len() && meta.all_reserves@[k] > 0
}

/// The pool state that the metadata describes.
pub open spec fn meta_state(meta: PoolMeta, pool_address: Seq<char>) -> AquariusPoolQuoteState {
    AquariusPoolQuoteState {
        pool_address: choose|s: String| s@ == pool_address,
        tokens: meta.all_tokens,
        reserves: meta.all_reserves,
        fee_bps: meta.fee_bps,
        is_stable: meta.is_stable,
        amp: meta.amp,
    }
}

/// The input and output reserves of a pair for an input token: `None` when
/// the token is neither of the pair's.
pub open spec fn pair_side(pair: PairReserves, token_in: Seq<char>) -> Option<(Option<u128>, Option<u128>)> {
    if token_in == pair.token_a@ {
        Some((pair.reserve_a, pair.reserve_b))
    } else if token_in == pair.token_b@ {
        Some((pair.reserve_b, pair.reserve_a))
    } else {
        None
    }
}

/// The output of a hop through a pair with both reserves known and not
/// empty.
pub open spec fn pair_output(meta: PoolMeta, reserve_in: u128, reserve_out: u128, amount_in: u128) -> int {
    if meta.is_stable {
        stable_quote_value(seq![reserve_in, reserve_out], 0, 1, amount_in, meta.fee_bps, meta.amp)
    } else {
        constant_product_value(amount_in, reserve_in, reserve_out, meta.fee_bps)
    }
}

/// A quote from what the adapter caches: from the full pool state when the
/// metadata lists it, else from the pair's two reserves (matched on the
/// input token), else none.
pub open spec fn cached_quote_value(
    meta: PoolMeta,
    pair: Option<PairReserves>,
    pool_address: Seq<char>,
    token_in: Seq<char>,
    token_out: Seq<char>,
    amount_in: u128,
) -> Option<AdapterQuote> {
    if meta_usable(meta) {
        quote_aquarius_value(meta_state(meta, pool_address), token_in, token_out, amount_in)
    } else {
        match pair {
            None => None,
            Some(p) => match pair_side(p, token_in) {
                Some((Some(ri), Some(ro))) => if ri > 0 && ro > 0 {
                    let out = pair_output(meta, ri, ro, amount_in);
                    if out == 0 {
                        None
                    } else {
                        Some(AdapterQuote {
                            amount_out: out as u128,
                            fee_bps: meta.fee_bps,
                            price_impact_bps: price_impact_value(amount_in, ri) as u32,
                        })
                    }
                } else {
                    None
                },
                _ => None,
            },
        }
    }
}

/// The arithmetic of the cached quote stays within `u128`.
pub open spec fn cached_quote_safe(
    meta: PoolMeta,
    pair: Option<PairReserves>,
    pool_address: Seq<char>,
    token_in: Seq<char>,
    token_out: Seq<char>,
    amount_in: u128,
) -> bool {
    if meta_usable(meta) {
        quote_aquarius_safe(meta_state(meta, pool_address), token_in, token_out, amount_in)
    } else {
        match pair {
            None => true,
            Some(p) => match pair_side(p, token_in) {
                Some((Some(ri), Some(ro))) => ri == 0 || ro == 0 || {
                    &&& (if meta.is_stable {
                        stable_quote_safe(seq![ri, ro], 0, 1, amount_in, meta.fee_bps, meta.amp)
                    } else {
                        constant_product_safe(amount_in, ri, ro, meta.fee_bps)
                    })
                    &&& pair_output(meta, ri, ro, amount_in) != 0 ==> amount_in * 10_000 <= u128::MAX && 2 * ri
                        <= u128::MAX
                },
                _ => true,
            },
        }
    }
}

fn any_positive(v: &Vec<u128>) -> (r: bool)
    ensures
        r == exists|k: int| 0 <= k < v@.len() && v@[k] > 0,
{
    let mut i: usize = 0;
    while i < v.len()
        invariant
            i <= v@.len(),
            forall|k: int| 0 <= k < i ==> v@[k] == 0,
        decreases v.len() - i,
    {
        if v[i] > 0 {
            return true;
        }
        i = i + 1;
    }
    false
}

/// Quote a hop from the cached pool metadata, or from the cached pair
/// reserves when the metadata does not list the pool's tokens.
pub fn quote_cached_pool(
    meta: &PoolMeta,
    pair: Option<&PairReserves>,
    pool_address: &str,
    token_in: &str,
    token_out: &str,
    amount_in: u128,
) -> (r: Option<AdapterQuote>)
    requires
        cached_quote_safe(*meta, pair_value(pair), pool_address@, token_in@, token_out@, amount_in),
    ensures
        r == cached_quote_value(*meta, pair_value(pair), pool_address@, token_in@, token_out@, amount_in),
{
    if meta.all_tokens.len() >= 2 && meta.all_reserves.len() == meta.all_tokens.len() && any_positive(
        &meta.all_reserves,
    ) {
        let state = AquariusPoolQuoteState {
            pool_address: pool_address.to_string(),
            tokens: meta.all_tokens.clone(),
            reserves: meta.all_reserves.clone(),
            fee_bps: meta.fee_bps,
            is_stable: meta.is_stable,
            amp: meta.amp,
        };
        proof {
            let ms = meta_state(*meta, pool_address@);
            assert(state.tokens.deep_view() =~= ms.tokens.deep_view());
            assert(state.reserves@ =~= ms.reserves@);
        }
        return quote_aquarius_pool(&state, token_in, token_out, amount_in);
    }
    let p = match pair {
        Some(p) => p,
        None => return None,
    };
    let (reserve_in, reserve_out) = if str_eq(token_in, p.token_a.as_str()) {
        (p.reserve_a, p.reserve_b)
    } else if str_eq(token_in, p.token_b.as_str()) {
        (p.reserve_b, p.reserve_a)
    } else {
        return None;
    };
    let reserve_in = match reserve_in {
        Some(r) => r,
        None => return None,
    };
    let reserve_out = match reserve_out {
        Some(r) => r,
        None => return None,
    };
    if reserve_in == 0 || reserve_out == 0 {
        return None;
    }
    let amount_out = if meta.is_stable {
        let pair_reserves = [reserve_in, reserve_out];
        proof {
            assert(pair_reserves@ =~= seq![reserve_in, reserve_out]);
        }
        AquariusAdapter::stable_swap_quote_multi(&pair_reserves, 0, 1, amount_in, meta.fee_bps, meta.amp)
    } else {
        AquariusAdapter::constant_product_quote(amount_in, reserve_in, reserve_out, meta.fee_bps)
    };
    if amount_out == 0 {
        return None;
    }
    let impact = amount_in * 10_000 / (2 * reserve_in);
    let price_impact_bps: u32 = if impact < 10_000 {
        impact as u32
    } else {
        10_000
    };
    Some(AdapterQuote { amount_out, fee_bps: meta.fee_bps, price_impact_bps })
}

/// A constant-product swap never takes the whole output reserve.
pub proof fn lemma_constant_product_below_reserve(amount_in: u128, reserve_in: u128, reserve_out: u128, fee_bps: u32)
    requires
        reserve_out > 0,
        fee_bps <= 10_000,
    ensures
        0 <= constant_product_value(amount_in, reserve_in, reserve_out, fee_bps) < reserve_out,
{
    if !(reserve_in == 0 || amount_in == 0) {
        let x: int = amount_in * (10_000 - fee_bps) / 10_000;
        assert(x >= 0) by (nonlinear_arith)
            requires
                x == amount_in * (10_000 - fee_bps) / 10_000,
                fee_bps <= 10_000,
        ;
        let ro: int = reserve_out as int;
        let ri: int = reserve_in as int;
        assert(0 <= x * ro < (ri + x) * ro) by (nonlinear_arith)
            requires
                x >= 0,
                ri >= 1,
                ro >= 1,
        ;
        vstd::arithmetic::div_mod::lemma_multiply_divide_lt(x * ro, ri + x, ro);
        vstd::arithmetic::div_mod::lemma_div_pos_is_pos(x * ro, ri + x);
    }
}

} // verus!
