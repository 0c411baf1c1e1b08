//! Sushi V3 pools on Stellar: the cached pool, its local quote (fees in
//! parts per million), and the decisions of loading its ticks.

use vstd::prelude::*;

use crate::clmm_math::bitmap::{
    chunk_address, chunk_bitmap_position, compress_tick, compress_tick_value, trunc_div, trunc_div_i32, word_bit,
};
use crate::clmm_math::simulate::{sells_token0, sim_amount_outcome, sim_outcome, sim_run, SimState};
use crate::clmm_math::{simulate_swap, ClmmPoolState, TickDataStore, TickState};
use crate::text::str_eq;
use crate::u256::U256;

verus! {

broadcast use vstd::std_specs::hash::group_hash_axioms;

/// `a / b` rounded toward negative infinity.
pub open spec fn floor_div_value(a: int, b: int) -> int {
    let d = trunc_div(a, b);
    if (a < 0) != (b < 0) && d * b != a {
        d - 1
    } else {
        d
    }
}

/// Floor division (rounds toward negative infinity).
pub fn floor_div(a: i32, b: i32) -> (r: i32)
    requires
        b != 0,
        !(a == i32::MIN && b == -1),
    ensures
        r == floor_div_value(a as int, b as int),
        b > 0 ==> r == (a as int) / (b as int),
{
    let d = trunc_div_i32(a, b);
    proof {
        vstd::arithmetic::mul::lemma_mul_upper_bound(
            crate::clmm_math::bitmap::abs_int(d as int),
            0x8000_0000,
            crate::clmm_math::bitmap::abs_int(b as int),
            0x8000_0000,
        );
        assert(crate::clmm_math::bitmap::abs_int(d as int * b as int) == crate::clmm_math::bitmap::abs_int(d as int)
            * crate::clmm_math::bitmap::abs_int(b as int)) by (nonlinear_arith);
        if b > 0 {
            assert(compress_tick_value(a as int, b as int) == floor_div_value(a as int, b as int));
            crate::clmm_math::bitmap::lemma_compress_floor(a as int, b as int);
        }
        if (a < 0) != (b < 0) && d * b != a {
            if a < 0 {
                crate::clmm_math::bitmap::lemma_quotient_above_min(a as int, b as int);
            } else {
                let x = a as int;
                let y = b as int;
                assert(-x <= x / y <= 0) by (nonlinear_arith)
                    requires
                        x >= 0,
                        y < 0,
                ;
            }
        }
    }
    let exact = d as i64 * b as i64 == a as i64;
    if (a < 0) != (b < 0) && !exact {
        d - 1
    } else {
        d
    }
}

/// How many bitmap words to scan on each side of the current tick: more
/// for finer tick spacings.
pub fn bitmap_scan_words(tick_spacing: i32) -> (r: i32)
    ensures
        r == (if 1 <= tick_spacing <= 10 {
            30i32
        } else if 11 <= tick_spacing <= 60 {
            15i32
        } else {
            10i32
        }),
{
    if tick_spacing >= 1 && tick_spacing <= 10 {
        30
    } else if tick_spacing >= 11 && tick_spacing <= 60 {
        15
    } else {
        10
    }
}

/// The bitmap words scanned around a tick: the word of its compressed
/// index, give or take `bitmap_scan_words`.
pub fn tick_word_range(tick: i32, tick_spacing: i32) -> (r: (i32, i32))
    requires
        tick_spacing != 0,
        !(tick == i32::MIN && tick_spacing == -1),
    ensures
        ({
            let word = floor_div_value(floor_div_value(tick as int, tick_spacing as int), 256);
            let scan: int = if 1 <= tick_spacing <= 10 {
                30
            } else if 11 <= tick_spacing <= 60 {
                15
            } else {
                10
            };
            r == ((word - scan) as i32, (word + scan) as i32)
        }),
{
    let compressed = floor_div(tick, tick_spacing);
    let current_word = floor_div(compressed, 256);
    proof {
        assert(-0x80_0000 <= current_word < 0x80_0000);
    }
    let scan_words = bitmap_scan_words(tick_spacing);
    (current_word - scan_words, current_word + scan_words)
}

/// Cached Sushi pool state for local quoting; the fee is in parts per
/// million.
#[derive(Debug, Clone)]
pub struct SushiPoolCache {
    pub pool_address: String,
    pub token0: String,
    pub token1: String,
    pub fee_bps: u32,
    pub tick_spacing: i32,
    pub sqrt_price_x96: U256,
    pub tick: i32,
    pub liquidity: u128,
    pub tick_store: TickDataStore,
}

/// The pool as the swap simulation reads it: its fee in parts per million
/// taken as the math's basis points, divided by 100.
pub open spec fn sushi_sim_state(pool: SushiPoolCache) -> ClmmPoolState {
    ClmmPoolState {
        sqrt_price_x96: pool.sqrt_price_x96,
        tick: pool.tick,
        liquidity: pool.liquidity,
        fee_bps: pool.fee_bps / 100,
        tick_spacing: pool.tick_spacing,
        token0: pool.token0,
        token1: pool.token1,
    }
}

/// A local CLMM quote: `None` without liquidity; the fee in parts per
/// million becomes the math's basis points (divided by 100); token0 in
/// swaps toward token1.
pub fn sushi_local_quote(pool: &SushiPoolCache, token_in: &str, amount_in: u128) -> (r: Option<u128>)
    requires
        pool.tick_store.well_formed(),
        pool.fee_bps <= 1_000_000,
        pool.tick_spacing != 0,
        !(pool.tick == i32::MIN && pool.tick_spacing == -1),
    ensures
        pool.liquidity == 0 || amount_in == 0 ==> r is None,
        amount_in != 0 && pool.liquidity != 0 ==> exists|trace: Seq<SimState>|
            #[trigger] sim_run(sushi_sim_state(*pool), pool.tick_store, amount_in, sells_token0(token_in@, pool.token0@), trace)
                && sim_amount_outcome(trace.last(), r),
        r matches Some(out) ==> out > 0,
{
    if pool.liquidity == 0 {
        return None;
    }
    let zero_for_one = str_eq(token_in, pool.token0.as_str());
    let fee_bps_for_math = pool.fee_bps / 100;
    let pool_state = ClmmPoolState {
        sqrt_price_x96: pool.sqrt_price_x96,
        tick: pool.tick,
        liquidity: pool.liquidity,
        fee_bps: fee_bps_for_math,
        tick_spacing: pool.tick_spacing,
        token0: pool.token0.clone(),
        token1: pool.token1.clone(),
    };
    let sim = simulate_swap(&pool_state, &pool.tick_store, amount_in, zero_for_one);
    let r = match sim {
        Some((amount_out, _, _)) => Some(amount_out),
        None => None,
    };
    proof {
        if amount_in != 0 {
            assert(pool_state == sushi_sim_state(*pool));
            let trace = choose|trace: Seq<SimState>|
                #[trigger] sim_run(pool_state, pool.tick_store, amount_in, zero_for_one, trace) && sim_outcome(
                    trace.last(),
                    sim,
                );
            assert(sim_run(sushi_sim_state(*pool), pool.tick_store, amount_in, sells_token0(token_in@, pool.token0@), trace));
        }
    }
    r
}

/// A big-endian bitmap word with bit `b` set.
pub open spec fn with_bit(word: Seq<u8>, b: int) -> Seq<u8> {
    word.update(31 - b / 8, word[31 - b / 8] | (1u8 << ((b % 8) as u8)))
}

proof fn lemma_set_bit_reads_back(x: u8, j: u8)
    requires
        j < 8,
    ensures
        ((x | (1u8 << j)) >> j) & 1u8 == 1u8,
{
    assert(((x | (1u8 << j)) >> j) & 1u8 == 1u8) by (bit_vector)
        requires
            j < 8,
    ;
}

/// Record a populated tick read from the pool: a tick with liquidity goes
/// into its chunk's slot (the chunk starting empty) and marks its chunk in
/// the chunk bitmap; one without is skipped.
pub fn store_populated_tick(store: &mut TickDataStore, tick: i32, spacing: i32, liquidity_gross: u128, liquidity_net: i128)
    requires
        old(store).well_formed(),
        spacing != 0,
        !(tick == i32::MIN && spacing == -1),
    ensures
        final(store).well_formed(),
        final(store).word_bitmap@ == old(store).word_bitmap@,
        liquidity_gross == 0 ==> *final(store) == *old(store),
        liquidity_gross > 0 ==> {
            let c = compress_tick_value(tick as int, spacing as int);
            let cp = c / 16;
            let slot = c % 16;
            let w = (cp / 256) as i32;
            let base = if old(store).chunks@.contains_key(cp as i32) {
                old(store).chunks@[cp as i32]@
            } else {
                Seq::new(16, |i: int| TickState { liquidity_gross: 0, liquidity_net: 0 })
            };
            let old_word = if old(store).chunk_bitmap@.contains_key(w) {
                old(store).chunk_bitmap@[w]@
            } else {
                Seq::new(32, |i: int| 0u8)
            };
            &&& final(store).chunks@.dom() == old(store).chunks@.dom().insert(cp as i32)
            &&& final(store).chunks@[cp as i32]@ == base.update(
                slot,
                TickState { liquidity_gross: liquidity_gross, liquidity_net: liquidity_net },
            )
            &&& forall|q: i32| q != cp && old(store).chunks@.contains_key(q) ==> final(store).chunks@[q] == old(
                store,
            ).chunks@[q]
            &&& final(store).chunk_bitmap@.dom() == old(store).chunk_bitmap@.dom().insert(w)
            &&& final(store).chunk_bitmap@[w]@ == with_bit(old_word, cp % 256)
            &&& word_bit(final(store).chunk_bitmap@[w], cp % 256)
            &&& forall|v: i32| v != w && old(store).chunk_bitmap@.contains_key(v) ==> final(store).chunk_bitmap@[v]
                == old(store).chunk_bitmap@[v]
        },
{
    if liquidity_gross == 0 {
        return;
    }
    let compressed = compress_tick(tick, spacing);
    let (chunk_pos, slot) = chunk_address(compressed);
    let mut chunk = match store.chunks.get(&chunk_pos) {
        Some(c) => c.clone(),
        None => vec![TickState { liquidity_gross: 0, liquidity_net: 0 }; 16],
    };
    chunk.set(slot as usize, TickState { liquidity_gross, liquidity_net });
    store.chunks.insert(chunk_pos, chunk);
    let (bm_word, bm_bit) = chunk_bitmap_position(chunk_pos);
    let mut word: [u8; 32] = match store.chunk_bitmap.get(&bm_word) {
        Some(w) => *w,
        None => [0u8; 32],
    };
    let byte_idx = 31 - (bm_bit / 8) as usize;
    let bit_idx = (bm_bit % 8) as u8;
    let old_byte = word[byte_idx];
    word[byte_idx] = old_byte | (1u8 << bit_idx);
    proof {
        lemma_set_bit_reads_back(old_byte, bit_idx);
    }
    store.chunk_bitmap.insert(bm_word, word);
}

} // verus!
