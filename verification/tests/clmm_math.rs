use lumagg::clmm_math::bitmap;
use lumagg::clmm_math::{
    amount0_delta, amount1_delta, compute_swap_step, max_sqrt_ratio, min_sqrt_ratio, mul_div_ceil, mul_div_floor,
    simulate_swap, sqrt_ratio_at_tick, tick_at_sqrt_ratio, ClmmPoolState, TickDataStore, TickState, MAX_TICK, MIN_TICK,
    TICKS_PER_CHUNK,
};
use lumagg::u256::U256;

fn q96() -> U256 {
    U256::from_u128(1u128 << 96)
}

#[test]
fn test_u256_basic_ops() {
    let a = U256::from_u128(100);
    let b = U256::from_u128(200);
    let sum = a.wrapping_add(&b);
    assert_eq!(sum.to_u128(), Some(300));

    let diff = b.wrapping_sub(&a);
    assert_eq!(diff.to_u128(), Some(100));
}

#[test]
fn test_u256_mul() {
    let a = U256::from_u128(1_000_000);
    let b = U256::from_u128(2_000_000);
    let product = a.wrapping_mul(&b);
    assert_eq!(product.to_u128(), Some(2_000_000_000_000));
}

#[test]
fn test_u256_div() {
    let a = U256::from_u128(1_000_000);
    let b = U256::from_u128(3);
    let q = a.div(&b);
    assert_eq!(q.to_u128(), Some(333_333));
}

#[test]
fn test_u256_shift() {
    let one = U256::one();
    let shifted = one.shl(96);
    assert_eq!(shifted, q96());

    let back = shifted.shr(96);
    assert_eq!(back, U256::one());
}

#[test]
fn test_mul_div_floor() {
    let a = U256::from_u128(10);
    let b = U256::from_u128(3);
    let d = U256::from_u128(7);
    let result = mul_div_floor(&a, &b, &d);
    assert_eq!(result.to_u128(), Some(4));
}

#[test]
fn test_mul_div_ceil() {
    let a = U256::from_u128(10);
    let b = U256::from_u128(3);
    let d = U256::from_u128(7);
    let result = mul_div_ceil(&a, &b, &d);
    assert_eq!(result.to_u128(), Some(5));
}

#[test]
fn test_mul_div_large() {
    let max = U256::from_u128(u128::MAX);
    let result = mul_div_floor(&max, &max, &max);
    assert_eq!(result.to_u128(), Some(u128::MAX));
}

#[test]
fn test_sqrt_ratio_at_tick_zero() {
    let sqrt = sqrt_ratio_at_tick(0);
    assert_eq!(sqrt, q96());
}

#[test]
fn test_tick_math_roundtrip() {
    for tick in [-887_272, -100_000, -1, 0, 1, 100_000, 887_271] {
        let sqrt = sqrt_ratio_at_tick(tick);
        let actual_tick = tick_at_sqrt_ratio(&sqrt);
        assert_eq!(actual_tick, tick, "roundtrip failed for tick {}", tick);
    }
}

#[test]
fn test_tick_at_sqrt_ratio_boundaries() {
    let min = min_sqrt_ratio();
    let max_minus_one = max_sqrt_ratio().wrapping_sub(&U256::one());

    assert_eq!(tick_at_sqrt_ratio(&min), MIN_TICK);
    assert_eq!(tick_at_sqrt_ratio(&max_minus_one), MAX_TICK - 1);
}

#[test]
fn test_amount0_delta_basic() {
    let sqrt_a = sqrt_ratio_at_tick(0);
    let sqrt_b = sqrt_ratio_at_tick(100);
    let result = amount0_delta(&sqrt_a, &sqrt_b, 1_000_000_000_000, true);
    assert!(result.is_some());
    assert!(result.unwrap() > 0);
}

#[test]
fn test_amount1_delta_basic() {
    let sqrt_a = sqrt_ratio_at_tick(0);
    let sqrt_b = sqrt_ratio_at_tick(100);
    let result = amount1_delta(&sqrt_a, &sqrt_b, 1_000_000_000_000, true);
    assert!(result.is_some());
    assert!(result.unwrap() > 0);
}

#[test]
fn test_compute_swap_step_exact_input() {
    let sqrt_current = sqrt_ratio_at_tick(0);
    let sqrt_target = sqrt_ratio_at_tick(-100);
    let liquidity = 1_000_000_000_000u128;
    let amount_remaining = 1_000_000u128;
    let fee_bps = 30;

    let step = compute_swap_step(&sqrt_current, &sqrt_target, liquidity, amount_remaining, fee_bps, true, true);

    assert!(step.amount_in > 0);
    assert!(step.amount_out > 0);
    assert!(step.fee_amount > 0);
    assert!(step.amount_in + step.fee_amount <= amount_remaining);
}

fn set_bit_in_word(word: &mut [u8; 32], bit_pos: u32) {
    let byte_idx = 31usize - (bit_pos / 8) as usize;
    let bit_idx = (bit_pos % 8) as u8;
    word[byte_idx] |= 1u8 << bit_idx;
}

#[test]
fn test_simulate_swap_basic() {
    let pool = ClmmPoolState {
        sqrt_price_x96: sqrt_ratio_at_tick(0),
        tick: 0,
        liquidity: 10_000_000_000_000u128,
        fee_bps: 30,
        tick_spacing: 200,
        token0: "TOKEN_A".to_string(),
        token1: "TOKEN_B".to_string(),
    };

    let mut ticks = TickDataStore::new();

    let lower_compressed = bitmap::compress_tick(-1000, 200);
    let upper_compressed = bitmap::compress_tick(1000, 200);

    let (lower_chunk, lower_slot) = bitmap::chunk_address(lower_compressed);
    let (upper_chunk, upper_slot) = bitmap::chunk_address(upper_compressed);

    let mut lower_chunk_data = vec![TickState { liquidity_gross: 0, liquidity_net: 0 }; TICKS_PER_CHUNK as usize];
    lower_chunk_data[lower_slot as usize] =
        TickState { liquidity_gross: 10_000_000_000_000, liquidity_net: 10_000_000_000_000 };
    ticks.chunks.insert(lower_chunk, lower_chunk_data);

    let mut upper_chunk_data = vec![TickState { liquidity_gross: 0, liquidity_net: 0 }; TICKS_PER_CHUNK as usize];
    upper_chunk_data[upper_slot as usize] =
        TickState { liquidity_gross: 10_000_000_000_000, liquidity_net: -10_000_000_000_000 };
    ticks.chunks.insert(upper_chunk, upper_chunk_data);

    let (bm_word_lower, bm_bit_lower) = bitmap::chunk_bitmap_position(lower_chunk);
    let (bm_word_upper, bm_bit_upper) = bitmap::chunk_bitmap_position(upper_chunk);

    let mut word = [0u8; 32];
    set_bit_in_word(&mut word, bm_bit_lower);
    set_bit_in_word(&mut word, bm_bit_upper);
    ticks.chunk_bitmap.insert(bm_word_lower, word);
    if bm_word_upper != bm_word_lower {
        let mut word2 = [0u8; 32];
        set_bit_in_word(&mut word2, bm_bit_upper);
        ticks.chunk_bitmap.insert(bm_word_upper, word2);
    }

    let (l2_pos, l2_bit) = bitmap::word_bitmap_position(bm_word_lower);
    let mut l2_word = [0u8; 32];
    set_bit_in_word(&mut l2_word, l2_bit);
    ticks.word_bitmap.insert(l2_pos, l2_word);

    let result = simulate_swap(&pool, &ticks, 1_000_000, true);
    assert!(result.is_some(), "swap should produce output");
    let (amount_out, price, tick) = result.unwrap();
    assert!(amount_out > 0, "should get some token1 out");
    assert!(!pool.sqrt_price_x96.less_than(&price), "a token0 input never raises the price");
    assert!(!price.less_than(&sqrt_ratio_at_tick(tick)));
    let (_, up_price, _) = simulate_swap(&pool, &ticks, 1_000_000, false).expect("token0 comes out");
    assert!(!up_price.less_than(&pool.sqrt_price_x96), "a token1 input never lowers the price");
}

#[test]
fn amount1_beyond_256_bits_wraps_as_the_registers_do() {
    let lower = U256([0, 0, 0, 0]);
    let upper = U256([0, 0, 0, 1u64 << 63]);
    let liquidity: u128 = 1u128 << 127;
    assert_eq!(amount1_delta(&lower, &upper, liquidity, true), Some(0));
    assert_eq!(amount1_delta(&lower, &upper, liquidity, false), None);
}

#[test]
fn mul_div_of_a_wide_quotient_keeps_the_register_result() {
    let a = U256([0, 0, 0, 1u64 << 8]);
    let three = U256([3, 0, 0, 0]);
    let all_ones = U256([u64::MAX; 4]);
    assert_eq!(mul_div_floor(&a, &a, &three), all_ones);
    assert_eq!(mul_div_ceil(&a, &a, &three), U256([0, 0, 0, 0]));
}

#[test]
fn tick_of_a_price_brackets_it() {
    for &t in &[MIN_TICK, -100_000, -1, 0, 1, 100_000, MAX_TICK - 1] {
        let p = sqrt_ratio_at_tick(t);
        let r = tick_at_sqrt_ratio(&p);
        assert!(!p.less_than(&sqrt_ratio_at_tick(r)));
        assert!(p.less_than(&sqrt_ratio_at_tick(r + 1)));
    }
    let just_below_next = sqrt_ratio_at_tick(7).wrapping_sub(&U256::one());
    assert_eq!(tick_at_sqrt_ratio(&just_below_next), 6);
}
