use lumagg::aquarius_clmm::{concentrated_pools, pool_range_batches};
use lumagg::aquarius_clmm::{
    bitmap_batch, candidate_ticks, local_quote, store_bitmap_word, store_tick_info, tick_chunk_range,
    u256_to_be_bytes, AquaClmmPool,
};
use lumagg::clmm_math::{bitmap, sqrt_ratio_at_tick, TickDataStore};
use lumagg::u256::U256;

fn loaded_store() -> TickDataStore {
    let mut store = TickDataStore::new();
    let (min_chunk, max_chunk) = tick_chunk_range(-1000, 1000, 200).unwrap();
    let (start_word, count) = bitmap_batch(min_chunk, max_chunk);
    assert_eq!((start_word, count), (-1, 2));
    // Chunk -1 is bit 255 of word -1; chunk 0 is bit 0 of word 0.
    store_bitmap_word(&mut store, -1, &U256([0, 0, 0, 1u64 << 63]));
    store_bitmap_word(&mut store, 0, &U256([1, 0, 0, 0]));
    for tick in candidate_ticks(&store, min_chunk, max_chunk, 200, -1000, 1000) {
        let (gross, net) = match tick {
            -1000 => (10_000_000_000_000u128, 10_000_000_000_000i128),
            1000 => (10_000_000_000_000, -10_000_000_000_000),
            _ => (0, 0),
        };
        store_tick_info(&mut store, tick, 200, gross, net);
    }
    let (l2_pos, l2_bit) = bitmap::word_bitmap_position(-1);
    let mut l2 = [0u8; 32];
    l2[31 - (l2_bit / 8) as usize] |= 1 << (l2_bit % 8);
    store.word_bitmap.insert(l2_pos, l2);
    let mut l2_zero = [0u8; 32];
    l2_zero[31] |= 1;
    store.word_bitmap.insert(0, l2_zero);
    store
}

#[test]
fn tick_loading_plan() {
    assert_eq!(tick_chunk_range(5, 5, 200), None);
    assert_eq!(tick_chunk_range(-1000, 1000, 200), Some((-1, 0)));
    assert_eq!(bitmap_batch(0, 256 * 100), (0, 50));
    assert_eq!(bitmap_batch(300, 10), (1, 50));
    assert_eq!(bitmap_batch(-300, 300), (-2, 4));

    let store = loaded_store();
    let ticks = candidate_ticks(&store, -1, 0, 200, -1000, 1000);
    assert_eq!(ticks, vec![-1000, -800, -600, -400, -200, 0, 200, 400, 600, 800, 1000]);
    let low = store.get_tick(-1000, 200);
    assert_eq!(low.liquidity_gross, 10_000_000_000_000);
    assert_eq!(low.liquidity_net, 10_000_000_000_000);
    let high = store.get_tick(1000, 200);
    assert_eq!(high.liquidity_net, -10_000_000_000_000);
    assert_eq!(store.get_tick(0, 200).liquidity_gross, 0);
}

#[test]
fn bitmap_words_are_big_endian() {
    let bytes = u256_to_be_bytes(&U256([0x0102030405060708, 0, 0, 0xa1a2a3a4a5a6a7a8]));
    assert_eq!(&bytes[0..8], &[0xa1, 0xa2, 0xa3, 0xa4, 0xa5, 0xa6, 0xa7, 0xa8]);
    assert_eq!(&bytes[24..32], &[1, 2, 3, 4, 5, 6, 7, 8]);
    assert_eq!(&bytes[8..24], &[0u8; 16]);
}

#[test]
fn local_quote_swaps_by_input_token() {
    let pool = AquaClmmPool {
        pool_address: "CPOOL".to_string(),
        token0: "TOKEN_A".to_string(),
        token1: "TOKEN_B".to_string(),
        fee_bps: 30,
        tick_spacing: 200,
        sqrt_price_x96: sqrt_ratio_at_tick(0),
        tick: 0,
        liquidity: 10_000_000_000_000,
        min_init_tick: -1000,
        max_init_tick: 1000,
        tick_store: loaded_store(),
    };
    let a_to_b = local_quote(&pool, "TOKEN_A", 1_000_000).unwrap();
    let b_to_a = local_quote(&pool, "TOKEN_B", 1_000_000).unwrap();
    assert!(a_to_b > 0 && a_to_b < 1_000_000);
    assert!(b_to_a > 0 && b_to_a < 1_000_000);
    assert_eq!(local_quote(&pool, "TOKEN_A", 0), None);
}

#[test]
fn pool_ranges_cover_the_token_sets() {
    assert!(pool_range_batches(0).is_empty());
    assert_eq!(pool_range_batches(50), vec![(0, 50)]);
    assert_eq!(pool_range_batches(120), vec![(0, 50), (50, 100), (100, 120)]);
}

#[test]
fn only_concentrated_pools_are_kept() {
    let addrs = vec!["A".to_string(), "B".to_string(), "C".to_string()];
    let types = vec![Some("concentrated".to_string()), Some("stable".to_string()), None];
    assert_eq!(concentrated_pools(&addrs, &types), vec!["A".to_string()]);
}
