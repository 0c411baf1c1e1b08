//! Aquarius concentrated-liquidity pools: the cached pool, its local quote,
//! and the decisions of loading its ticks (which bitmap words to ask for,
//! which ticks to read, where the answers go).

use vstd::prelude::*;

use crate::clmm_math::bitmap::{
    chunk_address, chunk_bitmap_position, compress_tick, compress_tick_value, compressed_to_tick, test_word_bit,
    word_bit,
};
use crate::clmm_math::swap::compressed_to_tick_value;
use crate::clmm_math::simulate::{sells_token0, sim_amount_outcome, sim_outcome, sim_run, SimState};
use crate::clmm_math::{simulate_swap, ClmmPoolState, TickDataStore, TickState, TICKS_PER_CHUNK};
use crate::text::str_eq;
use crate::u256::U256;

verus! {

broadcast use vstd::std_specs::hash::group_hash_axioms;

/// Aquarius concentrated pool state (cached for quoting).
#[derive(Debug, Clone)]
pub struct AquaClmmPool {
    pub pool_address: String,
    pub token0: String,
    pub token1: String,
    pub fee_bps: u32,
    pub tick_spacing: i32,
    pub sqrt_price_x96: U256,
    pub tick: i32,
    pub liquidity: u128,
    pub min_init_tick: i32,
    pub max_init_tick: i32,
    pub tick_store: TickDataStore,
}

/// The pool as the swap simulation reads it.
pub open spec fn aqua_sim_state(pool: AquaClmmPool) -> ClmmPoolState {
    ClmmPoolState {
        sqrt_price_x96: pool.sqrt_price_x96,
        tick: pool.tick,
        liquidity: pool.liquidity,
        fee_bps: pool.fee_bps,
        tick_spacing: pool.tick_spacing,
        token0: pool.token0,
        token1: pool.token1,
    }
}

/// Local quote with the CLMM math: token0 in swaps toward token1, anything
/// else the other way; `None` when nothing comes out.
pub fn local_quote(pool: &AquaClmmPool, token_in: &str, amount_in: u128) -> (r: Option<u128>)
    requires
        pool.tick_store.well_formed(),
        pool.fee_bps <= 10_000,
        pool.tick_spacing != 0,
        !(pool.tick == i32::MIN && pool.tick_spacing == -1),
    ensures
        amount_in == 0 || pool.liquidity == 0 ==> r is None,
        amount_in != 0 && pool.liquidity != 0 ==> exists|trace: Seq<SimState>|
            #[trigger] sim_run(aqua_sim_state(*pool), pool.tick_store, amount_in, sells_token0(token_in@, pool.token0@), trace)
                && sim_amount_outcome(trace.last(), r),
        r matches Some(out) ==> out > 0,
{
    let zero_for_one = str_eq(token_in, pool.token0.as_str());
    let pool_state = ClmmPoolState {
        sqrt_price_x96: pool.sqrt_price_x96,
        tick: pool.tick,
        liquidity: pool.liquidity,
        fee_bps: pool.fee_bps,
        tick_spacing: pool.tick_spacing,
        token0: pool.token0.clone(),
        token1: pool.token1.clone(),
    };
    let sim = simulate_swap(&pool_state, &pool.tick_store, amount_in, zero_for_one);
    let r = match sim {
        Some((amount_out, _, _)) => Some(amount_out),
        None => None,
    };
    proof {
        if amount_in != 0 && pool.liquidity != 0 {
            assert(pool_state == aqua_sim_state(*pool));
            let trace = choose|trace: Seq<SimState>|
                #[trigger] sim_run(pool_state, pool.tick_store, amount_in, zero_for_one, trace) && sim_outcome(
                    trace.last(),
                    sim,
                );
            assert(sim_run(aqua_sim_state(*pool), pool.tick_store, amount_in, sells_token0(token_in@, pool.token0@), trace));
        }
    }
    r
}

/// Chunk of a tick: its compressed index divided by `TICKS_PER_CHUNK`.
pub open spec fn tick_chunk(tick: int, spacing: int) -> int {
    compress_tick_value(tick, spacing) / 16
}

/// The chunks that hold a pool's initialized ticks, from the chunk of the
/// lowest to that of the highest; `None` for a pool without initialized
/// ticks.
pub fn tick_chunk_range(min_init_tick: i32, max_init_tick: i32, spacing: i32) -> (r: Option<(i32, i32)>)
    requires
        spacing != 0,
        !(min_init_tick == i32::MIN && spacing == -1),
        !(max_init_tick == i32::MIN && spacing == -1),
    ensures
        min_init_tick >= max_init_tick ==> r is None,
        min_init_tick < max_init_tick ==> r == Some(
            (
                tick_chunk(min_init_tick as int, spacing as int) as i32,
                tick_chunk(max_init_tick as int, spacing as int) as i32,
            ),
        ),
{
    if min_init_tick >= max_init_tick {
        return None;
    }
    let (min_chunk, _) = chunk_address(compress_tick(min_init_tick, spacing));
    let (max_chunk, _) = chunk_address(compress_tick(max_init_tick, spacing));
    Some((min_chunk, max_chunk))
}

/// Most chunk-bitmap words asked for in one batch.
pub const MAX_BITMAP_WORDS: u32 = 50;

/// The chunk-bitmap words to ask for: from the word of the lowest chunk, as
/// many as reach the word of the highest, at most `MAX_BITMAP_WORDS` (and
/// the most when the highest word lies below the lowest).
pub fn bitmap_batch(min_chunk: i32, max_chunk: i32) -> (r: (i32, u32))
    ensures
        r.0 == (min_chunk as int) / 256,
        r.1 == (if (max_chunk as int) / 256 >= (min_chunk as int) / 256 && (max_chunk as int) / 256 - (min_chunk as int) / 256 + 1 < MAX_BITMAP_WORDS {
            (max_chunk as int) / 256 - (min_chunk as int) / 256 + 1
        } else {
            MAX_BITMAP_WORDS as int
        }),
{
    let (min_word, _) = chunk_bitmap_position(min_chunk);
    let (max_word, _) = chunk_bitmap_position(max_chunk);
    if max_word >= min_word {
        let span = (max_word - min_word) as u32 + 1;
        if span < MAX_BITMAP_WORDS {
            return (min_word, span);
        }
    }
    (min_word, MAX_BITMAP_WORDS)
}

/// Chunk `cp` is marked in the chunk bitmap.
pub open spec fn chunk_marked(store: TickDataStore, cp: int) -> bool {
    let w = cp / 256;
    &&& i32::MIN <= w <= i32::MAX
    &&& store.chunk_bitmap@.contains_key(w as i32)
    &&& word_bit(store.chunk_bitmap@[w as i32], cp % 256)
}

/// The ticks of one marked chunk that lie within the bounds, by slot.
pub open spec fn chunk_candidates(cp: int, spacing: int, lo: int, hi: int, slots: nat) -> Seq<i32>
    decreases slots,
{
    if slots == 0 {
        Seq::empty()
    } else {
        let prev = chunk_candidates(cp, spacing, lo, hi, (slots - 1) as nat);
        let t = compressed_to_tick_value(cp * 16 + slots - 1, spacing);
        if lo <= t <= hi {
            prev.push(t as i32)
        } else {
            prev
        }
    }
}

/// The candidate ticks of the chunks `first..first + count`: every slot of
/// every chunk marked in the bitmap, as a tick, when it lies within
/// `[lo, hi]`.
pub open spec fn candidate_ticks_value(store: TickDataStore, first: int, count: nat, spacing: int, lo: int, hi: int) -> Seq<i32>
    decreases count,
{
    if count == 0 {
        Seq::empty()
    } else {
        let prev = candidate_ticks_value(store, first, (count - 1) as nat, spacing, lo, hi);
        let cp = first + count - 1;
        if chunk_marked(store, cp) {
            prev + chunk_candidates(cp, spacing, lo, hi, 16)
        } else {
            prev
        }
    }
}

/// The ticks to read: in each chunk from `min_chunk` to `max_chunk` that
/// the chunk bitmap marks, every slot whose tick lies within
/// `[min_init_tick, max_init_tick]`.
pub fn candidate_ticks(
    store: &TickDataStore,
    min_chunk: i32,
    max_chunk: i32,
    spacing: i32,
    min_init_tick: i32,
    max_init_tick: i32,
) -> (r: Vec<i32>)
    requires
        -0x800_0000 <= min_chunk,
        max_chunk < 0x800_0000,
    ensures
        r@ == candidate_ticks_value(
            *store,
            min_chunk as int,
            (if max_chunk >= min_chunk { max_chunk - min_chunk + 1 } else { 0 }) as nat,
            spacing as int,
            min_init_tick as int,
            max_init_tick as int,
        ),
{
    let mut out: Vec<i32> = Vec::new();
    if max_chunk < min_chunk {
        return out;
    }
    let mut chunk_pos: i32 = min_chunk;
    let ghost lo = min_init_tick as int;
    let ghost hi = max_init_tick as int;
    loop
        invariant
            -0x800_0000 <= min_chunk <= chunk_pos <= max_chunk < 0x800_0000,
            out@ == candidate_ticks_value(*store, min_chunk as int, (chunk_pos - min_chunk) as nat, spacing as int, lo, hi),
            lo == min_init_tick,
            hi == max_init_tick,
        decreases max_chunk - chunk_pos,
    {
        let (bm_word, bm_bit) = chunk_bitmap_position(chunk_pos);
        let marked = match store.chunk_bitmap.get(&bm_word) {
            Some(word) => test_word_bit(word, bm_bit),
            None => false,
        };
        let ghost before = out@;
        if marked {
            let mut slot: i32 = 0;
            while slot < TICKS_PER_CHUNK
                invariant
                    0 <= slot <= 16,
                    -0x800_0000 <= chunk_pos < 0x800_0000,
                    out@ == before + chunk_candidates(chunk_pos as int, spacing as int, lo, hi, slot as nat),
                    lo == min_init_tick,
                    hi == max_init_tick,
                decreases 16 - slot,
            {
                let compressed = chunk_pos * TICKS_PER_CHUNK + slot;
                let actual_tick = compressed_to_tick(compressed, spacing);
                if actual_tick >= min_init_tick && actual_tick <= max_init_tick {
                    out.push(actual_tick);
                }
                proof {
                    assert(compressed_to_tick_value(compressed as int, spacing as int) == actual_tick);
                }
                slot = slot + 1;
            }
        }
        proof {
            assert(chunk_marked(*store, chunk_pos as int) == marked);
        }
        if chunk_pos == max_chunk {
            return out;
        }
        chunk_pos = chunk_pos + 1;
    }
}

/// Byte `k` of the 32-byte big-endian form of a 256-bit value: limb
/// `3 - k / 8`, most significant byte first.
pub open spec fn be_byte(v: U256, k: int) -> u8 {
    ((v.0[3 - k / 8] >> (8 * (7 - k % 8)) as u64) & 0xff) as u8
}

/// A 256-bit value as 32 big-endian bytes (the layout of a bitmap word).
pub fn u256_to_be_bytes(val: &U256) -> (r: [u8; 32])
    ensures
        forall|k: int| 0 <= k < 32 ==> #[trigger] r@[k] == be_byte(*val, k),
{
    let mut bytes = [0u8; 32];
    let mut k: usize = 0;
    while k < 32
        invariant
            k <= 32,
            bytes@.len() == 32,
            forall|j: int| 0 <= j < k ==> #[trigger] bytes@[j] == be_byte(*val, j),
        decreases 32 - k,
    {
        let limb = val.0[3 - k / 8];
        let shift = (8 * (7 - k % 8)) as u64;
        bytes[k] = ((limb >> shift) & 0xff) as u8;
        k = k + 1;
    }
    bytes
}

/// Record a chunk-bitmap word read from the pool.
pub fn store_bitmap_word(store: &mut TickDataStore, word_pos: i32, value: &U256)
    requires
        old(store).well_formed(),
        -0x8_0000 <= word_pos < 0x8_0000,
    ensures
        final(store).well_formed(),
        final(store).chunks@ == old(store).chunks@,
        final(store).word_bitmap@ == old(store).word_bitmap@,
        final(store).chunk_bitmap@.dom() == old(store).chunk_bitmap@.dom().insert(word_pos),
        forall|k: int| 0 <= k < 32 ==> #[trigger] final(store).chunk_bitmap@[word_pos]@[k] == be_byte(*value, k),
        forall|w: i32| w != word_pos && old(store).chunk_bitmap@.contains_key(w) ==> final(store).chunk_bitmap@[w]
            == old(store).chunk_bitmap@[w],
{
    let bytes = u256_to_be_bytes(value);
    store.chunk_bitmap.insert(word_pos, bytes);
}

/// Record a tick read from the pool: a tick with liquidity goes into its
/// chunk's slot (the chunk starting empty); one without is skipped.
pub fn store_tick_info(store: &mut TickDataStore, tick: i32, spacing: i32, liquidity_gross: u128, liquidity_net: i128)
    requires
        old(store).well_formed(),
        spacing != 0,
        !(tick == i32::MIN && spacing == -1),
    ensures
        final(store).well_formed(),
        final(store).chunk_bitmap@ == old(store).chunk_bitmap@,
        final(store).word_bitmap@ == old(store).word_bitmap@,
        liquidity_gross == 0 ==> final(store).chunks@ == old(store).chunks@,
        liquidity_gross > 0 ==> {
            let c = compress_tick_value(tick as int, spacing as int);
            let cp = (c / 16) as i32;
            let slot = c % 16;
            let base = if old(store).chunks@.contains_key(cp) {
                old(store).chunks@[cp]@
            } else {
                Seq::new(16, |i: int| TickState { liquidity_gross: 0, liquidity_net: 0 })
            };
            &&& final(store).chunks@.dom() == old(store).chunks@.dom().insert(cp)
            &&& final(store).chunks@[cp]@ == base.update(
                slot,
                TickState { liquidity_gross: liquidity_gross, liquidity_net: liquidity_net },
            )
            &&& forall|q: i32| q != cp && old(store).chunks@.contains_key(q) ==> final(store).chunks@[q] == old(
                store,
            ).chunks@[q]
        },
{
    if liquidity_gross == 0 {
        return;
    }
    let compressed = compress_tick(tick, spacing);
    let (chunk_pos, slot) = chunk_address(compressed);
    let mut chunk = match store.chunks.get(&chunk_pos) {
        Some(c) => c.clone(),
        None => vec![TickState { liquidity_gross: 0, liquidity_net: 0 }; 16],
    };
    proof {
        assert(chunk@.len() >= 16);
    }
    chunk.set(slot as usize, TickState { liquidity_gross, liquidity_net });
    store.chunks.insert(chunk_pos, chunk);
}

/// How many token sets one router range query covers.
pub const POOL_RANGE_BATCH: u128 = 50;

/// The `k`-th range of token sets: `[50k, min(50k + 50, total))`.
pub open spec fn pool_range_at(total: u128, k: int) -> (u128, u128) {
    let start = POOL_RANGE_BATCH * k;
    let end = if start + POOL_RANGE_BATCH < total { start + POOL_RANGE_BATCH } else { total as int };
    (start as u128, end as u128)
}

/// How many ranges cover `[0, total)`.
pub open spec fn pool_range_count(total: u128) -> int {
    (total as int + POOL_RANGE_BATCH - 1) / (POOL_RANGE_BATCH as int)
}

/// The ranges of token sets to ask the router for pools: consecutive
/// `[start, end)` ranges of at most 50 that cover `[0, total)`.
pub fn pool_range_batches(total: u128) -> (r: Vec<(u128, u128)>)
    ensures
        r@.len() == pool_range_count(total),
        forall|k: int| 0 <= k < r@.len() ==> #[trigger] r@[k] == pool_range_at(total, k),
{
    let mut out: Vec<(u128, u128)> = Vec::new();
    let mut start: u128 = 0;
    while start < total
        invariant
            start <= total,
            start < total ==> start == POOL_RANGE_BATCH * out@.len(),
            start < total ==> out@.len() < pool_range_count(total),
            start >= total ==> out@.len() == pool_range_count(total),
            forall|k: int| 0 <= k < out@.len() ==> #[trigger] out@[k] == pool_range_at(total, k),
        decreases total - start,
    {
        let end = if total - start > POOL_RANGE_BATCH {
            start + POOL_RANGE_BATCH
        } else {
            total
        };
        let ghost k = out@.len() as int;
        out.push((start, end));
        proof {
            assert(out@[k] == pool_range_at(total, k));
        }
        start = end;
        proof {
            let n = out@.len() as int;
            if start < total {
                assert(start == POOL_RANGE_BATCH * n);
                assert(POOL_RANGE_BATCH * n < total);
                assert(n < pool_range_count(total)) by (nonlinear_arith)
                    requires
                        50 * n < total,
                        n >= 0,
                        POOL_RANGE_BATCH == 50,
                {
                }
            } else {
                assert(n == pool_range_count(total)) by (nonlinear_arith)
                    requires
                        50 * (n - 1) < total,
                        total <= 50 * n,
                        n >= 1,
                        POOL_RANGE_BATCH == 50,
                {
                }
            }
        }
    }
    proof {
        if total == 0 {
            assert(pool_range_count(total) == 0);
        }
    }
    out
}

/// The pools whose type is `concentrated`, in order: `pool_types[i]` is the
/// answer of pool `addrs[i]` (`None` when it gave no type name).
pub open spec fn concentrated_of(addrs: Seq<String>, pool_types: Seq<Option<String>>, n: int) -> Seq<Seq<char>>
    decreases n,
{
    if n <= 0 {
        seq![]
    } else {
        let before = concentrated_of(addrs, pool_types, n - 1);
        if pool_types[n - 1] matches Some(t) && t@ == "concentrated"@ {
            before.push(addrs[n - 1]@)
        } else {
            before
        }
    }
}

/// Keep the pools whose reported type is `concentrated`, pairing each
/// address with the type at the same position.
pub fn concentrated_pools(addrs: &[String], pool_types: &[Option<String>]) -> (r: Vec<String>)
    ensures
        r.deep_view() == concentrated_of(
            addrs@,
            pool_types@,
            if addrs@.len() <= pool_types@.len() { addrs@.len() as int } else { pool_types@.len() as int },
        ),
{
    let n = if addrs.len() <= pool_types.len() { addrs.len() } else { pool_types.len() };
    let mut out: Vec<String> = Vec::new();
    let mut i: usize = 0;
    while i < n
        invariant
            n <= addrs@.len() && n <= pool_types@.len(),
            i <= n,
            out.deep_view() == concentrated_of(addrs@, pool_types@, i as int),
        decreases n - i,
    {
        let keep = match &pool_types[i] {
            Some(t) => str_eq(t.as_str(), "concentrated"),
            None => false,
        };
        if keep {
            let ghost before = out.deep_view();
            out.push(addrs[i].clone());
            proof {
                assert(out.deep_view() =~= before.push(addrs@[i as int]@));
            }
        }
        i = i + 1;
    }
    out
}

} // verus!
