//! Tick storage for off-chain swap simulation and the tick search over it.

use crate::clmm_math::bitmap::{
    chunk_address, chunk_bitmap_position, compress_tick, compressed_to_tick, find_next_set_bit,
    find_prev_set_bit, word_bit, word_bitmap_position,
};
use crate::clmm_math::{MAX_TICK, MIN_TICK, TICKS_PER_CHUNK};
use crate::u256::U256;
use std::collections::HashMap;
use vstd::prelude::*;

verus! {

broadcast use vstd::std_specs::hash::group_hash_axioms;

/// Tick info needed for swap simulation.
#[derive(Debug, Clone, Copy)]
pub struct TickState {
    pub liquidity_gross: u128,
    pub liquidity_net: i128,
}

/// Pool state needed for swap simulation.
#[derive(Debug, Clone)]
pub struct ClmmPoolState {
    pub sqrt_price_x96: U256,
    pub tick: i32,
    pub liquidity: u128,
    pub fee_bps: u32,
    pub tick_spacing: i32,
    pub token0: String,
    pub token1: String,
}

/// Tick data for off-chain simulation: chunks of `TICKS_PER_CHUNK` tick
/// states keyed by chunk position, and two levels of 256-bit bitmaps
/// (big-endian bytes) marking non-empty chunks and non-empty bitmap words.
#[derive(Debug, Clone)]
pub struct TickDataStore {
    pub chunks: HashMap<i32, Vec<TickState>>,
    pub chunk_bitmap: HashMap<i32, [u8; 32]>,
    pub word_bitmap: HashMap<i32, [u8; 32]>,
}

/// The tick that a compressed index stands for, clamped to the valid range.
pub open spec fn compressed_to_tick_value(compressed: int, spacing: int) -> int {
    if compressed * spacing < MIN_TICK {
        MIN_TICK as int
    } else if compressed * spacing > MAX_TICK {
        MAX_TICK as int
    } else {
        compressed * spacing
    }
}

impl TickDataStore {
    /// Every stored chunk holds a full set of slots, and every key lies where
    /// chunk, bitmap and tick arithmetic stays within `i32`.
    pub open spec fn well_formed(&self) -> bool {
        &&& forall|cp: i32| #[trigger]
            self.chunks@.contains_key(cp) ==> self.chunks@[cp].len() >= 16 && -0x800_0000 <= cp
                < 0x800_0000
        &&& forall|wp: i32| #[trigger]
            self.chunk_bitmap@.contains_key(wp) ==> -0x8_0000 <= wp < 0x8_0000
        &&& forall|lp: i32| #[trigger]
            self.word_bitmap@.contains_key(lp) ==> -0x800 <= lp < 0x800
    }

    /// Slot `s` of chunk `cp` holds an initialized tick.
    pub open spec fn slot_initialized(&self, cp: int, s: int) -> bool {
        &&& i32::MIN <= cp <= i32::MAX
        &&& self.chunks@.contains_key(cp as i32)
        &&& 0 <= s < self.chunks@[cp as i32].len()
        &&& self.chunks@[cp as i32]@[s].liquidity_gross > 0
    }

    /// Compressed index `c` holds an initialized tick.
    pub open spec fn initialized(&self, c: int) -> bool {
        self.slot_initialized(c / 16, c % 16)
    }

    pub fn new() -> (s: Self)
        ensures
            s.chunks@ == Map::<i32, Vec<TickState>>::empty(),
            s.chunk_bitmap@ == Map::<i32, [u8; 32]>::empty(),
            s.word_bitmap@ == Map::<i32, [u8; 32]>::empty(),
            s.well_formed(),
    {
        TickDataStore { chunks: HashMap::new(), chunk_bitmap: HashMap::new(), word_bitmap: HashMap::new() }
    }

    /// The net liquidity stored for `tick`, 0 where none is stored.
    pub open spec fn liquidity_net_at(&self, tick: i32, spacing: i32) -> i128 {
        let c = crate::clmm_math::bitmap::compress_tick_value(tick as int, spacing as int);
        let cp = c / 16;
        let slot = c % 16;
        if self.chunks@.contains_key(cp as i32) && slot < self.chunks@[cp as i32].len() {
            self.chunks@[cp as i32]@[slot].liquidity_net
        } else {
            0
        }
    }

    /// The gross liquidity stored for `tick`, 0 where none is stored.
    pub open spec fn liquidity_gross_at(&self, tick: i32, spacing: i32) -> u128 {
        let c = crate::clmm_math::bitmap::compress_tick_value(tick as int, spacing as int);
        let cp = c / 16;
        let slot = c % 16;
        if self.chunks@.contains_key(cp as i32) && slot < self.chunks@[cp as i32].len() {
            self.chunks@[cp as i32]@[slot].liquidity_gross
        } else {
            0
        }
    }

    /// Tick info at `tick`, or an empty state where none is stored.
    pub fn get_tick(&self, tick: i32, spacing: i32) -> (r: TickState)
        requires
            spacing != 0,
            !(tick == i32::MIN && spacing == -1),
        ensures
            ({
                let c = crate::clmm_math::bitmap::compress_tick_value(tick as int, spacing as int);
                let cp = c / 16;
                let slot = c % 16;
                if self.chunks@.contains_key(cp as i32) && slot < self.chunks@[cp as i32].len() {
                    r == self.chunks@[cp as i32]@[slot]
                } else {
                    r.liquidity_gross == 0 && r.liquidity_net == 0
                }
            }),
            r.liquidity_gross == self.liquidity_gross_at(tick, spacing),
            r.liquidity_net == self.liquidity_net_at(tick, spacing),
    {
        let compressed = compress_tick(tick, spacing);
        let (chunk_pos, slot) = chunk_address(compressed);
        match self.chunks.get(&chunk_pos) {
            Some(chunk) => {
                if (slot as usize) < chunk.len() {
                    chunk[slot as usize]
                } else {
                    TickState { liquidity_gross: 0, liquidity_net: 0 }
                }
            },
            None => TickState { liquidity_gross: 0, liquidity_net: 0 },
        }
    }
}


/// A compressed index splits into its chunk and slot.
proof fn lemma_chunk_slot(cp: int, s: int)
    requires
        0 <= s < 16,
    ensures
        (cp * 16 + s) / 16 == cp,
        (cp * 16 + s) % 16 == s,
{
    vstd::arithmetic::div_mod::lemma_fundamental_div_mod_converse(cp * 16 + s, 16, cp, s);
}

impl TickDataStore {
    /// Highest initialized slot of a chunk, as a tick; the ghost value is its
    /// compressed index.
    fn highest_init_in_chunk(&self, chunk_pos: i32, spacing: i32) -> (r: (Option<i32>, Ghost<int>))
        requires
            self.well_formed(),
        ensures
            r.0 is Some ==> {
                let c = r.1@;
                &&& chunk_pos * 16 <= c < chunk_pos * 16 + 16
                &&& self.initialized(c)
                &&& r.0->0 == compressed_to_tick_value(c, spacing as int)
                &&& forall|c2: int| c < c2 < chunk_pos * 16 + 16 ==> !#[trigger] self.initialized(c2)
            },
            r.0 is None ==> forall|c2: int|
                chunk_pos * 16 <= c2 < chunk_pos * 16 + 16 ==> !#[trigger] self.initialized(c2),
    {
        match self.chunks.get(&chunk_pos) {
            Some(chunk) => {
                let mut s: u32 = 16;
                while s > 0
                    invariant
                        s <= 16,
                        self.well_formed(),
                        self.chunks@.contains_key(chunk_pos),
                        *chunk == self.chunks@[chunk_pos],
                        forall|c2: int| chunk_pos * 16 + s <= c2 < chunk_pos * 16 + 16 ==> !#[trigger] self.initialized(c2),
                    decreases s,
                {
                    s = s - 1;
                    proof {
                        lemma_chunk_slot(chunk_pos as int, s as int);
                    }
                    if chunk[s as usize].liquidity_gross > 0 {
                        let found = chunk_pos * TICKS_PER_CHUNK + s as i32;
                        return (Some(compressed_to_tick(found, spacing)), Ghost(found as int));
                    }
                    assert(!self.initialized(chunk_pos * 16 + s));
                }
                (None, Ghost(0))
            },
            None => {
                proof {
                    assert forall|c2: int| chunk_pos * 16 <= c2 < chunk_pos * 16 + 16 implies !#[trigger] self.initialized(c2) by {
                        lemma_chunk_slot(chunk_pos as int, c2 - chunk_pos * 16);
                    }
                }
                (None, Ghost(0))
            },
        }
    }

    /// Lowest initialized slot of a chunk, as a tick; the ghost value is its
    /// compressed index.
    fn lowest_init_in_chunk(&self, chunk_pos: i32, spacing: i32) -> (r: (Option<i32>, Ghost<int>))
        requires
            self.well_formed(),
        ensures
            r.0 is Some ==> {
                let c = r.1@;
                &&& chunk_pos * 16 <= c < chunk_pos * 16 + 16
                &&& self.initialized(c)
                &&& r.0->0 == compressed_to_tick_value(c, spacing as int)
                &&& forall|c2: int| chunk_pos * 16 <= c2 < c ==> !#[trigger] self.initialized(c2)
            },
            r.0 is None ==> forall|c2: int|
                chunk_pos * 16 <= c2 < chunk_pos * 16 + 16 ==> !#[trigger] self.initialized(c2),
    {
        match self.chunks.get(&chunk_pos) {
            Some(chunk) => {
                let mut s: u32 = 0;
                while s < 16
                    invariant
                        s <= 16,
                        self.well_formed(),
                        self.chunks@.contains_key(chunk_pos),
                        *chunk == self.chunks@[chunk_pos],
                        forall|c2: int| chunk_pos * 16 <= c2 < chunk_pos * 16 + s ==> !#[trigger] self.initialized(c2),
                    decreases 16 - s,
                {
                    proof {
                        lemma_chunk_slot(chunk_pos as int, s as int);
                    }
                    if chunk[s as usize].liquidity_gross > 0 {
                        let found = chunk_pos * TICKS_PER_CHUNK + s as i32;
                        return (Some(compressed_to_tick(found, spacing)), Ghost(found as int));
                    }
                    assert(!self.initialized(chunk_pos * 16 + s));
                    s = s + 1;
                }
                (None, Ghost(0))
            },
            None => {
                proof {
                    assert forall|c2: int| chunk_pos * 16 <= c2 < chunk_pos * 16 + 16 implies !#[trigger] self.initialized(c2) by {
                        lemma_chunk_slot(chunk_pos as int, c2 - chunk_pos * 16);
                    }
                }
                (None, Ghost(0))
            },
        }
    }
}

/// A position splits into its 256-wide word and its bit.
proof fn lemma_word_bit_split(p: int, b: int)
    requires
        0 <= b < 256,
    ensures
        (p * 256 + b) / 256 == p,
        (p * 256 + b) % 256 == b,
{
    vstd::arithmetic::div_mod::lemma_fundamental_div_mod_converse(p * 256 + b, 256, p, b);
}

/// With consistent bitmaps, unmarked chunks hold no initialized tick.
proof fn lemma_unmarked_chunks(store: &TickDataStore, k0: int, k1: int)
    requires
        store.bitmaps_consistent(),
        forall|k: int| k0 <= k < k1 ==> !#[trigger] store.chunk_is_marked(k),
    ensures
        forall|c: int| k0 * 16 <= c < k1 * 16 ==> !#[trigger] store.initialized(c),
{
    reveal(TickDataStore::bitmaps_consistent);
    assert forall|c: int| k0 * 16 <= c < k1 * 16 implies !#[trigger] store.initialized(c) by {
        vstd::arithmetic::div_mod::lemma_fundamental_div_mod(c, 16);
        if store.initialized(c) {
            assert(store.chunk_is_marked(c / 16));
            assert(k0 <= c / 16 < k1) by (nonlinear_arith)
                requires
                    k0 * 16 <= c < k1 * 16,
                    c == 16 * (c / 16) + c % 16,
                    0 <= c % 16 < 16,
            ;
        }
    }
}

/// With consistent bitmaps, a marked chunk holds an initialized tick.
proof fn lemma_marked_has_init(store: &TickDataStore, cp: int)
    requires
        store.bitmaps_consistent(),
        store.chunk_is_marked(cp),
    ensures
        exists|c: int| cp * 16 <= c < cp * 16 + 16 && #[trigger] store.initialized(c),
{
    reveal(TickDataStore::bitmaps_consistent);
}

/// With consistent bitmaps, unmarked words hold no marked chunk.
proof fn lemma_unmarked_words(store: &TickDataStore, w0: int, w1: int)
    requires
        store.bitmaps_consistent(),
        forall|w: int| w0 <= w < w1 ==> !#[trigger] store.word_is_marked(w),
    ensures
        forall|k: int| w0 * 256 <= k < w1 * 256 ==> !#[trigger] store.chunk_is_marked(k),
{
    reveal(TickDataStore::bitmaps_consistent);
    assert forall|k: int| w0 * 256 <= k < w1 * 256 implies !#[trigger] store.chunk_is_marked(k) by {
        vstd::arithmetic::div_mod::lemma_fundamental_div_mod(k, 256);
        if store.chunk_is_marked(k) {
            assert(store.word_is_marked(k / 256));
            assert(w0 <= k / 256 < w1) by (nonlinear_arith)
                requires
                    w0 * 256 <= k < w1 * 256,
                    k == 256 * (k / 256) + k % 256,
                    0 <= k % 256 < 256,
            ;
        }
    }
}

impl TickDataStore {
    /// Bit `b` of level-2 word `l2` is set.
    pub open spec fn l2_bit(&self, l2: int, b: int) -> bool {
        &&& i32::MIN <= l2 <= i32::MAX
        &&& self.word_bitmap@.contains_key(l2 as i32)
        &&& word_bit(self.word_bitmap@[l2 as i32], b)
    }

    /// Chunk-bitmap word `w` is marked in the level-2 bitmap.
    pub open spec fn word_is_marked(&self, w: int) -> bool {
        self.l2_bit(w / 256, w % 256)
    }

    /// Chunk `cp` is marked in the chunk bitmap.
    pub open spec fn chunk_is_marked(&self, cp: int) -> bool {
        &&& i32::MIN <= cp / 256 <= i32::MAX
        &&& self.chunk_bitmap@.contains_key((cp / 256) as i32)
        &&& word_bit(self.chunk_bitmap@[(cp / 256) as i32], cp % 256)
    }

    /// Search level-2 word `l2_pos` for its highest set bit at or below
    /// `from` (`lte`), or its lowest at or above; the result is the
    /// chunk-bitmap word that the bit marks.
    fn search_word_bitmap(&self, l2_pos: i32, from: u32, lte: bool) -> (r: Option<i32>)
        requires
            self.well_formed(),
            from <= 255,
        ensures
            r is Some ==> -0x8_0000 <= r->0 < 0x8_0000,
            r matches Some(v) ==> {
                let b = v - l2_pos * 256;
                &&& self.l2_bit(l2_pos as int, b)
                &&& lte ==> 0 <= b <= from && forall|k: int| b < k <= from ==> !#[trigger] self.l2_bit(l2_pos as int, k)
                &&& !lte ==> from <= b <= 255 && forall|k: int|
                    from <= k < b ==> !#[trigger] self.l2_bit(l2_pos as int, k)
            },
            r is None && lte ==> forall|k: int| 0 <= k <= from ==> !#[trigger] self.l2_bit(l2_pos as int, k),
            r is None && !lte ==> forall|k: int| from <= k <= 255 ==> !#[trigger] self.l2_bit(l2_pos as int, k),
    {
        match self.word_bitmap.get(&l2_pos) {
            Some(l2_word) => {
                let found = if lte {
                    find_prev_set_bit(l2_word, from)
                } else {
                    find_next_set_bit(l2_word, from)
                };
                match found {
                    Some(bit) => Some(l2_pos * 256 + bit as i32),
                    None => None,
                }
            },
            None => None,
        }
    }

    /// The nearest chunk-bitmap word below (`lte`) or above
    /// `current_word_pos` that the level-2 bitmap marks, looked for in the
    /// level-2 word of `current_word_pos` and the one next to it in the
    /// search direction.
    fn find_adjacent_bitmap_word(&self, current_word_pos: i32, lte: bool) -> (r: Option<i32>)
        requires
            self.well_formed(),
            -0x8_0000 <= current_word_pos < 0x8_0000,
        ensures
            r is Some ==> -0x8_0000 <= r->0 < 0x8_0000,
            ({
                let w = current_word_pos as int;
                let lo = (w / 256 - 1) * 256;
                let hi = (w / 256 + 1) * 256 + 255;
                &&& lte ==> match r {
                    Some(v) => lo <= v < w && self.word_is_marked(v as int) && forall|k: int|
                        v < k < w ==> !#[trigger] self.word_is_marked(k),
                    None => forall|k: int| lo <= k < w ==> !#[trigger] self.word_is_marked(k),
                }
                &&& !lte ==> match r {
                    Some(v) => w < v <= hi && self.word_is_marked(v as int) && forall|k: int|
                        w < k < v ==> !#[trigger] self.word_is_marked(k),
                    None => forall|k: int| w < k <= hi ==> !#[trigger] self.word_is_marked(k),
                }
            }),
    {
        let (l2_pos, l2_bit) = word_bitmap_position(current_word_pos);
        let ghost w = current_word_pos as int;
        proof {
            vstd::arithmetic::div_mod::lemma_fundamental_div_mod(current_word_pos as int, 256);
        }
        let adjacent = if lte && l2_bit > 0 {
            self.search_word_bitmap(l2_pos, l2_bit - 1, true)
        } else if !lte && l2_bit < 255 {
            self.search_word_bitmap(l2_pos, l2_bit + 1, false)
        } else {
            None
        };
        proof {
            // Within the current level-2 word, a marked word is a set bit.
            assert forall|k: int| l2_pos * 256 <= k < l2_pos * 256 + 256 implies #[trigger] self.word_is_marked(k)
                == self.l2_bit(l2_pos as int, k - l2_pos * 256) by {
                lemma_word_bit_split(l2_pos as int, k - l2_pos * 256);
            }
        }
        if adjacent.is_some() {
            proof {
                let v = adjacent->0 as int;
                lemma_word_bit_split(l2_pos as int, v - l2_pos * 256);
            }
            return adjacent;
        }
        let l2_adj = if lte {
            l2_pos - 1
        } else {
            l2_pos + 1
        };
        let from: u32 = if lte {
            255
        } else {
            0
        };
        let r = self.search_word_bitmap(l2_adj, from, lte);
        proof {
            assert forall|k: int| l2_adj * 256 <= k < l2_adj * 256 + 256 implies #[trigger] self.word_is_marked(k)
                == self.l2_bit(l2_adj as int, k - l2_adj * 256) by {
                lemma_word_bit_split(l2_adj as int, k - l2_adj * 256);
            }
            if r is Some {
                let v = r->0 as int;
                lemma_word_bit_split(l2_adj as int, v - l2_adj * 256);
            }
        }
        r
    }

    /// The highest (or lowest) initialized tick in the chunks that chunk-bitmap
    /// word `word_pos` marks, looking only at its extreme marked chunk.
    fn extreme_tick_in_bitmap_word(&self, word_pos: i32, spacing: i32, highest: bool) -> (r: (Option<i32>, Ghost<int>))
        requires
            self.well_formed(),
        ensures
            r.0 is Some ==> {
                &&& word_pos * 4096 <= r.1@ < word_pos * 4096 + 4096
                &&& self.initialized(r.1@)
                &&& r.0->0 == compressed_to_tick_value(r.1@, spacing as int)
            },
            r.0 is Some ==> {
                let cp = r.1@ / 16;
                &&& self.chunk_is_marked(cp)
                &&& highest ==> (forall|k: int| cp < k < word_pos * 256 + 256 ==> !#[trigger] self.chunk_is_marked(k))
                    && forall|c2: int| r.1@ < c2 < cp * 16 + 16 ==> !#[trigger] self.initialized(c2)
                &&& !highest ==> (forall|k: int| word_pos * 256 <= k < cp ==> !#[trigger] self.chunk_is_marked(k))
                    && forall|c2: int| cp * 16 <= c2 < r.1@ ==> !#[trigger] self.initialized(c2)
            },
            r.0 is None ==> (forall|k: int|
                word_pos * 256 <= k < word_pos * 256 + 256 ==> !#[trigger] self.chunk_is_marked(k)) || exists|cp: int|
                word_pos * 256 <= cp < word_pos * 256 + 256 && #[trigger] self.chunk_is_marked(cp) && (highest ==> forall|k: int|
                    cp < k < word_pos * 256 + 256 ==> !#[trigger] self.chunk_is_marked(k)) && (!highest ==> forall|k: int|
                    word_pos * 256 <= k < cp ==> !#[trigger] self.chunk_is_marked(k)) && forall|c2: int|
                    cp * 16 <= c2 < cp * 16 + 16 ==> !#[trigger] self.initialized(c2),
    {
        proof {
            assert forall|k: int| word_pos * 256 <= k < word_pos * 256 + 256 implies #[trigger] self.chunk_is_marked(k)
                == (self.chunk_bitmap@.contains_key(word_pos) && word_bit(
                self.chunk_bitmap@[word_pos],
                k - word_pos * 256,
            )) by {
                lemma_word_bit_split(word_pos as int, k - word_pos * 256);
            }
        }
        match self.chunk_bitmap.get(&word_pos) {
            Some(word) => {
                let found_bit = if highest {
                    find_prev_set_bit(word, 255)
                } else {
                    find_next_set_bit(word, 0)
                };
                match found_bit {
                    Some(bit) => {
                        let chunk_pos = word_pos * 256 + bit as i32;
                        let r = if highest {
                            self.highest_init_in_chunk(chunk_pos, spacing)
                        } else {
                            self.lowest_init_in_chunk(chunk_pos, spacing)
                        };
                        proof {
                            let cp = chunk_pos as int;
                            assert(self.chunk_is_marked(cp));
                            if r.0 is Some {
                                lemma_chunk_slot(cp, r.1@ - cp * 16);
                                assert(r.1@ / 16 == cp);
                            }
                        }
                        r
                    },
                    None => (None, Ghost(0)),
                }
            },
            None => (None, Ghost(0)),
        }
    }

    /// The bitmaps agree with the ticks: a chunk with an initialized tick is
    /// marked, a marked chunk holds an initialized tick, and the word of a
    /// marked chunk is marked in the level-2 bitmap.
    #[verifier::opaque]
    pub open spec fn bitmaps_consistent(&self) -> bool {
        &&& forall|c: int| #[trigger] self.initialized(c) ==> self.chunk_is_marked(c / 16)
        &&& forall|cp: int| #[trigger] self.chunk_is_marked(cp) ==> exists|c: int|
            cp * 16 <= c < cp * 16 + 16 && #[trigger] self.initialized(c)
        &&& forall|cp: int| #[trigger] self.chunk_is_marked(cp) ==> self.word_is_marked(cp / 256)
    }

    /// No initialized tick lies between the start of the search and the
    /// tick found.
    pub open spec fn find_tick_no_gap(&self, tick: i32, spacing: i32, lte: bool, r: (i32, bool)) -> bool {
        let compressed = crate::clmm_math::bitmap::compress_tick_value(tick as int, spacing as int);
        let start = if lte {
            compressed
        } else if compressed == i32::MAX {
            compressed
        } else {
            compressed + 1
        };
        &&& r.1 && lte ==> exists|c: int|
            c <= start && #[trigger] self.initialized(c) && r.0 == compressed_to_tick_value(c, spacing as int)
                && forall|c2: int| c < c2 <= start ==> !#[trigger] self.initialized(c2)
        &&& r.1 && !lte ==> exists|c: int|
            c >= start && #[trigger] self.initialized(c) && r.0 == compressed_to_tick_value(c, spacing as int)
                && forall|c2: int| start <= c2 < c ==> !#[trigger] self.initialized(c2)
    }

    /// What `find_initialized_tick` gives for `tick`: a tick reported
    /// initialized is one at or past the start of the search; when the start
    /// chunk holds an initialized tick at or past the start, the nearest such
    /// one; when nothing is found, the boundary of the searched bitmap word.
    pub open spec fn find_tick_result(&self, tick: i32, spacing: i32, lte: bool, r: (i32, bool)) -> bool {
        let compressed = crate::clmm_math::bitmap::compress_tick_value(tick as int, spacing as int);
        let start = if lte {
            compressed
        } else if compressed == i32::MAX {
            compressed
        } else {
            compressed + 1
        };
        let cp = start / 16;
        let word = cp / 256;
        &&& r.1 && lte ==> exists|c: int|
            c <= compressed && #[trigger] self.initialized(c) && r.0 == compressed_to_tick_value(c, spacing as int)
        &&& r.1 && !lte ==> exists|c: int|
            c >= start && #[trigger] self.initialized(c) && r.0 == compressed_to_tick_value(c, spacing as int)
        &&& lte && (exists|c: int| cp * 16 <= c <= start && #[trigger] self.initialized(c)) ==> r.1
            && exists|c: int| cp * 16 <= c <= start && #[trigger] self.initialized(c)
            && r.0 == compressed_to_tick_value(c, spacing as int) && forall|c2: int|
            c < c2 <= start ==> !#[trigger] self.initialized(c2)
        &&& !lte && (exists|c: int| start <= c < cp * 16 + 16 && #[trigger] self.initialized(c)) ==> r.1
            && exists|c: int| start <= c < cp * 16 + 16 && #[trigger] self.initialized(c)
            && r.0 == compressed_to_tick_value(c, spacing as int) && forall|c2: int|
            start <= c2 < c ==> !#[trigger] self.initialized(c2)
        &&& !r.1 && lte ==> r.0 == compressed_to_tick_value(word * 4096, spacing as int)
        &&& !r.1 && !lte ==> r.0 == compressed_to_tick_value(word * 4096 + 4095, spacing as int)
    }

    /// The search at or below `tick`.
    #[verifier::loop_isolation(false)]
    #[verifier::rlimit(100)]
    #[verifier::spinoff_prover]
    fn find_tick_down(&self, tick: i32, spacing: i32) -> (r: (i32, bool))
        requires
            self.well_formed(),
            spacing != 0,
            !(tick == i32::MIN && spacing == -1),
        ensures
            self.find_tick_result(tick, spacing, true, r),
            self.bitmaps_consistent() ==> self.find_tick_no_gap(tick, spacing, true, r),
            crate::clmm_math::MIN_TICK <= r.0 <= crate::clmm_math::MAX_TICK,
    {
        let compressed = compress_tick(tick, spacing);
        let start = compressed;
        let (chunk_pos, slot) = chunk_address(start);
        proof {
            vstd::arithmetic::div_mod::lemma_fundamental_div_mod(start as int, 16);
        }
        match self.chunks.get(&chunk_pos) {
            Some(chunk) => {
                let mut s: u32 = slot + 1;
                while s > 0
                    invariant
                        s <= slot + 1,
                        slot < 16,
                        chunk_pos * 16 + slot == start,
                        self.well_formed(),
                        self.chunks@.contains_key(chunk_pos),
                        *chunk == self.chunks@[chunk_pos],
                        forall|c2: int| chunk_pos * 16 + s <= c2 <= start ==> !#[trigger] self.initialized(c2),
                    decreases s,
                {
                    s = s - 1;
                    proof {
                        lemma_chunk_slot(chunk_pos as int, s as int);
                    }
                    if chunk[s as usize].liquidity_gross > 0 {
                        let found = chunk_pos * TICKS_PER_CHUNK + s as i32;
                        let r = compressed_to_tick(found, spacing);
                        assert(self.initialized(found as int));
                        assert(r == compressed_to_tick_value(found as int, spacing as int));
                        assert(forall|c2: int| found < c2 <= start ==> !#[trigger] self.initialized(c2));
                        assert(chunk_pos * 16 <= found <= start);
                        return (r, true);
                    }
                    assert(!self.initialized(chunk_pos * 16 + s));
                }
            },
            None => {
                proof {
                    assert forall|c2: int| chunk_pos * 16 <= c2 <= start implies !#[trigger] self.initialized(c2) by {
                        lemma_chunk_slot(chunk_pos as int, c2 - chunk_pos * 16);
                    }
                }
            },
        }
        let (bm_word_pos, bm_bit_pos) = chunk_bitmap_position(chunk_pos);
        proof {
            vstd::arithmetic::div_mod::lemma_fundamental_div_mod(chunk_pos as int, 256);
            assert forall|k: int| bm_word_pos * 256 <= k < bm_word_pos * 256 + 256 implies #[trigger] self.chunk_is_marked(k)
                == (self.chunk_bitmap@.contains_key(bm_word_pos) && word_bit(
                self.chunk_bitmap@[bm_word_pos],
                k - bm_word_pos * 256,
            )) by {
                lemma_word_bit_split(bm_word_pos as int, k - bm_word_pos * 256);
            }
        }
        // Under consistent bitmaps: no marked chunk lies below the start
        // chunk within its bitmap word.
        let ghost mut below_clear = false;
        match self.chunk_bitmap.get(&bm_word_pos) {
            Some(word) => {
                if bm_bit_pos > 0 {
                    match find_prev_set_bit(word, bm_bit_pos - 1) {
                        Some(found_bit) => {
                            let found_chunk = bm_word_pos * 256 + found_bit as i32;
                            let (t, Ghost(c)) = self.highest_init_in_chunk(found_chunk, spacing);
                            if let Some(t) = t {
                                proof {
                                    if self.bitmaps_consistent() {
                                        lemma_unmarked_chunks(self, found_chunk + 1, chunk_pos as int);
                                        assert forall|c2: int| c < c2 <= start implies !#[trigger] self.initialized(c2) by {
                                            if c2 >= chunk_pos * 16 {
                                            } else if c2 >= (found_chunk + 1) * 16 {
                                            } else {
                                            }
                                        }
                                        assert(c <= start);
                                    }
                                }
                                return (t, true);
                            }
                            proof {
                                if self.bitmaps_consistent() {
                                    assert(self.chunk_is_marked(found_chunk as int));
                                    lemma_marked_has_init(self, found_chunk as int);
                                    let w = choose|w: int|
                                        found_chunk * 16 <= w < found_chunk * 16 + 16 && #[trigger] self.initialized(w);
                                    assert(!self.initialized(w));
                                }
                            }
                        },
                        None => {
                            proof {
                                below_clear = true;
                            }
                        },
                    }
                } else {
                    proof {
                        below_clear = true;
                    }
                }
            },
            None => {
                proof {
                    below_clear = true;
                }
            },
        }
        proof {
            if self.bitmaps_consistent() {
                assert(below_clear);
                assert forall|k: int| bm_word_pos * 256 <= k < chunk_pos implies !#[trigger] self.chunk_is_marked(k) by {}
                lemma_unmarked_chunks(self, bm_word_pos * 256, chunk_pos as int);
            }
        }
        match self.find_adjacent_bitmap_word(bm_word_pos, true) {
            Some(target_word) => {
                let (t, Ghost(c)) = self.extreme_tick_in_bitmap_word(target_word, spacing, true);
                if let Some(t) = t {
                    proof {
                        if self.bitmaps_consistent() {
                            let cpv = c / 16;
                            lemma_unmarked_chunks(self, cpv + 1, target_word * 256 + 256);
                            lemma_unmarked_words(self, target_word + 1, bm_word_pos as int);
                            lemma_unmarked_chunks(self, (target_word + 1) * 256, bm_word_pos * 256);
                            assert(cpv < target_word * 256 + 256);
                            assert forall|c2: int| c < c2 <= start implies !#[trigger] self.initialized(c2) by {
                                if c2 >= chunk_pos * 16 {
                                } else if c2 >= bm_word_pos * 4096 {
                                } else if c2 >= (target_word + 1) * 4096 {
                                } else if c2 >= (cpv + 1) * 16 {
                                } else {
                                }
                            }
                            assert(c <= start);
                        }
                    }
                    return (t, true);
                }
            },
            None => {},
        }
        let boundary = bm_word_pos * 256 * TICKS_PER_CHUNK;
        (compressed_to_tick(boundary, spacing), false)
    }

    /// The search above `tick`.
    #[verifier::loop_isolation(false)]
    #[verifier::rlimit(100)]
    #[verifier::spinoff_prover]
    fn find_tick_up(&self, tick: i32, spacing: i32) -> (r: (i32, bool))
        requires
            self.well_formed(),
            spacing != 0,
            !(tick == i32::MIN && spacing == -1),
        ensures
            self.find_tick_result(tick, spacing, false, r),
            self.bitmaps_consistent() ==> self.find_tick_no_gap(tick, spacing, false, r),
            crate::clmm_math::MIN_TICK <= r.0 <= crate::clmm_math::MAX_TICK,
    {
        let compressed = compress_tick(tick, spacing);
        let start = if compressed == i32::MAX {
            compressed
        } else {
            compressed + 1
        };
        let (chunk_pos, slot) = chunk_address(start);
        proof {
            vstd::arithmetic::div_mod::lemma_fundamental_div_mod(start as int, 16);
        }
        match self.chunks.get(&chunk_pos) {
            Some(chunk) => {
                let mut s: u32 = slot;
                while s < 16
                    invariant
                        slot <= s <= 16,
                        slot < 16,
                        chunk_pos * 16 + slot == start,
                        self.well_formed(),
                        self.chunks@.contains_key(chunk_pos),
                        *chunk == self.chunks@[chunk_pos],
                        forall|c2: int| start <= c2 < chunk_pos * 16 + s ==> !#[trigger] self.initialized(c2),
                    decreases 16 - s,
                {
                    proof {
                        lemma_chunk_slot(chunk_pos as int, s as int);
                    }
                    if chunk[s as usize].liquidity_gross > 0 {
                        let found = chunk_pos * TICKS_PER_CHUNK + s as i32;
                        let r = compressed_to_tick(found, spacing);
                        assert(self.initialized(found as int));
                        assert(r == compressed_to_tick_value(found as int, spacing as int));
                        assert(forall|c2: int| start <= c2 < found ==> !#[trigger] self.initialized(c2));
                        assert(start <= found < chunk_pos * 16 + 16);
                        return (r, true);
                    }
                    assert(!self.initialized(chunk_pos * 16 + s));
                    s = s + 1;
                }
            },
            None => {
                proof {
                    assert forall|c2: int| start <= c2 < chunk_pos * 16 + 16 implies !#[trigger] self.initialized(c2) by {
                        lemma_chunk_slot(chunk_pos as int, c2 - chunk_pos * 16);
                    }
                }
            },
        }
        let (bm_word_pos, bm_bit_pos) = chunk_bitmap_position(chunk_pos);
        proof {
            vstd::arithmetic::div_mod::lemma_fundamental_div_mod(chunk_pos as int, 256);
            assert forall|k: int| bm_word_pos * 256 <= k < bm_word_pos * 256 + 256 implies #[trigger] self.chunk_is_marked(k)
                == (self.chunk_bitmap@.contains_key(bm_word_pos) && word_bit(
                self.chunk_bitmap@[bm_word_pos],
                k - bm_word_pos * 256,
            )) by {
                lemma_word_bit_split(bm_word_pos as int, k - bm_word_pos * 256);
            }
        }
        // Under consistent bitmaps: no marked chunk lies above the start
        // chunk within its bitmap word.
        let ghost mut above_clear = false;
        match self.chunk_bitmap.get(&bm_word_pos) {
            Some(word) => {
                if bm_bit_pos < 255 {
                    match find_next_set_bit(word, bm_bit_pos + 1) {
                        Some(found_bit) => {
                            let found_chunk = bm_word_pos * 256 + found_bit as i32;
                            let (t, Ghost(c)) = self.lowest_init_in_chunk(found_chunk, spacing);
                            if let Some(t) = t {
                                proof {
                                    if self.bitmaps_consistent() {
                                        lemma_unmarked_chunks(self, chunk_pos + 1, found_chunk as int);
                                        assert forall|c2: int| start <= c2 < c implies !#[trigger] self.initialized(c2) by {
                                            if c2 < chunk_pos * 16 + 16 {
                                            } else if c2 < found_chunk * 16 {
                                            } else {
                                            }
                                        }
                                        assert(c >= start);
                                    }
                                }
                                return (t, true);
                            }
                            proof {
                                if self.bitmaps_consistent() {
                                    assert(self.chunk_is_marked(found_chunk as int));
                                    lemma_marked_has_init(self, found_chunk as int);
                                    let w = choose|w: int|
                                        found_chunk * 16 <= w < found_chunk * 16 + 16 && #[trigger] self.initialized(w);
                                    assert(!self.initialized(w));
                                }
                            }
                        },
                        None => {
                            proof {
                                above_clear = true;
                            }
                        },
                    }
                } else {
                    proof {
                        above_clear = true;
                    }
                }
            },
            None => {
                proof {
                    above_clear = true;
                }
            },
        }
        proof {
            if self.bitmaps_consistent() {
                assert(above_clear);
                assert forall|k: int| chunk_pos < k < bm_word_pos * 256 + 256 implies !#[trigger] self.chunk_is_marked(k) by {}
                lemma_unmarked_chunks(self, chunk_pos + 1, bm_word_pos * 256 + 256);
            }
        }
        match self.find_adjacent_bitmap_word(bm_word_pos, false) {
            Some(target_word) => {
                let (t, Ghost(c)) = self.extreme_tick_in_bitmap_word(target_word, spacing, false);
                if let Some(t) = t {
                    proof {
                        if self.bitmaps_consistent() {
                            let cpv = c / 16;
                            lemma_unmarked_chunks(self, target_word * 256, cpv);
                            lemma_unmarked_words(self, bm_word_pos + 1, target_word as int);
                            lemma_unmarked_chunks(self, (bm_word_pos + 1) * 256, target_word * 256);
                            assert(cpv >= target_word * 256);
                            assert forall|c2: int| start <= c2 < c implies !#[trigger] self.initialized(c2) by {
                                if c2 < chunk_pos * 16 + 16 {
                                } else if c2 < (bm_word_pos + 1) * 4096 {
                                } else if c2 < target_word * 4096 {
                                } else if c2 < cpv * 16 {
                                } else {
                                }
                            }
                            assert(c >= start);
                        }
                    }
                    return (t, true);
                }
            },
            None => {},
        }
        let boundary = (bm_word_pos * 256 + 255) * TICKS_PER_CHUNK + (TICKS_PER_CHUNK - 1);
        (compressed_to_tick(boundary, spacing), false)
    }

    /// Find the next initialized tick at or below `tick` (`lte`) or above it,
    /// searching the current chunk, then the chunk bitmap word, then the
    /// level-2 bitmap. Returns the tick and whether it is initialized; when
    /// nothing is found, the boundary of the searched bitmap word.
    pub fn find_initialized_tick(&self, tick: i32, spacing: i32, lte: bool) -> (r: (i32, bool))
        requires
            self.well_formed(),
            spacing != 0,
            !(tick == i32::MIN && spacing == -1),
        ensures
            self.find_tick_result(tick, spacing, lte, r),
            self.bitmaps_consistent() ==> self.find_tick_no_gap(tick, spacing, lte, r),
            crate::clmm_math::MIN_TICK <= r.0 <= crate::clmm_math::MAX_TICK,
    {
        if lte {
            self.find_tick_down(tick, spacing)
        } else {
            self.find_tick_up(tick, spacing)
        }
    }

    /// With consistent bitmaps, and every initialized tick within the tick
    /// range, a search from a valid tick that reports an initialized tick
    /// lands on a tick of the spacing that holds liquidity, on the searched
    /// side (at or below `tick` searching down, above it searching up), and
    /// no tick of the spacing strictly between holds any.
    pub proof fn lemma_found_tick_nearest(&self, tick: i32, spacing: i32, lte: bool, r: (i32, bool))
        requires
            spacing > 0,
            crate::clmm_math::MIN_TICK <= tick <= crate::clmm_math::MAX_TICK,
            self.find_tick_result(tick, spacing, lte, r),
            self.find_tick_no_gap(tick, spacing, lte, r),
            r.1,
            forall|c: int| #[trigger]
                self.initialized(c) ==> crate::clmm_math::MIN_TICK <= c * spacing <= crate::clmm_math::MAX_TICK,
        ensures
            self.liquidity_gross_at(r.0, spacing) > 0,
            (r.0 as int) % (spacing as int) == 0,
            lte ==> r.0 <= tick,
            !lte ==> r.0 > tick,
            lte ==> forall|t2: int|
                r.0 < t2 <= tick && t2 % (spacing as int) == 0 ==> #[trigger] self.liquidity_gross_at(t2 as i32, spacing) == 0,
            !lte ==> forall|t2: int|
                tick < t2 < r.0 && t2 % (spacing as int) == 0 ==> #[trigger] self.liquidity_gross_at(t2 as i32, spacing) == 0,
    {
        let s = spacing as int;
        let compressed = crate::clmm_math::bitmap::compress_tick_value(tick as int, s);
        crate::clmm_math::bitmap::lemma_compress_bounds(tick as int, s);
        assert(compressed < i32::MAX) by (nonlinear_arith)
            requires
                compressed * s <= tick,
                tick <= 887_272,
                s >= 1,
        ;
        let start = if lte { compressed } else { compressed + 1 };
        let c = if lte {
            choose|c: int|
                c <= start && #[trigger] self.initialized(c) && r.0 == compressed_to_tick_value(c, s) && forall|c2: int|
                    c < c2 <= start ==> !#[trigger] self.initialized(c2)
        } else {
            choose|c: int|
                c >= start && #[trigger] self.initialized(c) && r.0 == compressed_to_tick_value(c, s) && forall|c2: int|
                    start <= c2 < c ==> !#[trigger] self.initialized(c2)
        };
        assert(r.0 == c * s);
        crate::clmm_math::bitmap::lemma_compress_multiple(c, s);
        vstd::arithmetic::div_mod::lemma_mod_multiples_basic(c, s);
        if lte {
            assert(c * s <= compressed * s) by (nonlinear_arith)
                requires
                    c <= compressed,
                    s > 0,
            ;
            assert forall|t2: int| r.0 < t2 <= tick && t2 % (spacing as int) == 0 implies #[trigger] self.liquidity_gross_at(
                t2 as i32,
                spacing,
            ) == 0 by {
                vstd::arithmetic::div_mod::lemma_fundamental_div_mod(t2, s);
                let k = t2 / s;
                assert(t2 == k * s) by (nonlinear_arith)
                    requires
                        t2 == s * k + t2 % s,
                        t2 % s == 0,
                ;
                crate::clmm_math::bitmap::lemma_compress_multiple(k, s);
                assert(c < k <= compressed) by (nonlinear_arith)
                    requires
                        c * s < k * s,
                        k * s <= tick,
                        tick < (compressed + 1) * s,
                        s > 0,
                ;
                assert(!self.initialized(k));
            }
        } else {
            assert(c * s >= (compressed + 1) * s) by (nonlinear_arith)
                requires
                    c >= compressed + 1,
                    s > 0,
            ;
            assert forall|t2: int| tick < t2 < r.0 && t2 % (spacing as int) == 0 implies #[trigger] self.liquidity_gross_at(
                t2 as i32,
                spacing,
            ) == 0 by {
                vstd::arithmetic::div_mod::lemma_fundamental_div_mod(t2, s);
                let k = t2 / s;
                assert(t2 == k * s) by (nonlinear_arith)
                    requires
                        t2 == s * k + t2 % s,
                        t2 % s == 0,
                ;
                crate::clmm_math::bitmap::lemma_compress_multiple(k, s);
                assert(compressed + 1 <= k < c) by (nonlinear_arith)
                    requires
                        k * s < c * s,
                        tick < k * s,
                        compressed * s <= tick,
                        s > 0,
                ;
                assert(!self.initialized(k));
            }
        }
    }
}
} // verus!
