use lumagg::clmm_math::{bitmap, sqrt_ratio_at_tick, TickDataStore};
use lumagg::sushi::{bitmap_scan_words, floor_div, store_populated_tick, sushi_local_quote, tick_word_range, SushiPoolCache};
use lumagg::token_metadata::logo_url_for_asset_id;

#[test]
fn floor_division_rounds_down() {
    assert_eq!(floor_div(7, 2), 3);
    assert_eq!(floor_div(-7, 2), -4);
    assert_eq!(floor_div(7, -2), -4);
    assert_eq!(floor_div(-7, -2), 3);
    assert_eq!(floor_div(-8, 2), -4);
    assert_eq!(floor_div(i32::MIN, 1), i32::MIN);
}

#[test]
fn scan_width_follows_tick_spacing() {
    assert_eq!(bitmap_scan_words(1), 30);
    assert_eq!(bitmap_scan_words(10), 30);
    assert_eq!(bitmap_scan_words(60), 15);
    assert_eq!(bitmap_scan_words(200), 10);
    assert_eq!(bitmap_scan_words(0), 10);
    assert_eq!(tick_word_range(0, 60), (-15, 15));
    // -1000 / 10 = -100 -> word -1
    assert_eq!(tick_word_range(-1000, 10), (-31, 29));
}

#[test]
fn populated_ticks_fill_chunks_and_bitmap() {
    let mut store = TickDataStore::new();
    store_populated_tick(&mut store, -1000, 200, 10_000_000_000_000, 10_000_000_000_000);
    store_populated_tick(&mut store, 1000, 200, 10_000_000_000_000, -10_000_000_000_000);
    store_populated_tick(&mut store, 400, 200, 0, 5);
    assert_eq!(store.get_tick(-1000, 200).liquidity_gross, 10_000_000_000_000);
    assert_eq!(store.get_tick(1000, 200).liquidity_net, -10_000_000_000_000);
    assert_eq!(store.get_tick(400, 200).liquidity_net, 0);
    // chunk -1 -> word -1 bit 255 (byte 0, bit 7); chunk 0 -> word 0 bit 0 (byte 31, bit 0)
    assert_eq!(store.chunk_bitmap[&-1][0], 0x80);
    assert_eq!(store.chunk_bitmap[&0][31], 0x01);

    let (l2_pos, l2_bit) = bitmap::word_bitmap_position(-1);
    let mut l2 = [0u8; 32];
    l2[31 - (l2_bit / 8) as usize] |= 1 << (l2_bit % 8);
    store.word_bitmap.insert(l2_pos, l2);
    let mut l2_zero = [0u8; 32];
    l2_zero[31] |= 1;
    store.word_bitmap.insert(0, l2_zero);

    let pool = SushiPoolCache {
        pool_address: "CSUSHI".into(),
        token0: "TOKEN_A".into(),
        token1: "TOKEN_B".into(),
        fee_bps: 3000,
        tick_spacing: 200,
        sqrt_price_x96: sqrt_ratio_at_tick(0),
        tick: 0,
        liquidity: 10_000_000_000_000,
        tick_store: store,
    };
    let out = sushi_local_quote(&pool, "TOKEN_A", 1_000_000).unwrap();
    assert!(out > 0 && out < 1_000_000);
    let empty = SushiPoolCache { liquidity: 0, ..pool };
    assert_eq!(sushi_local_quote(&empty, "TOKEN_A", 1_000_000), None);
}

#[test]
fn logo_urls_for_asset_ids() {
    assert_eq!(
        logo_url_for_asset_id("native").as_deref(),
        Some("https://stellar.expert/explorer/public/asset/native/icon")
    );
    assert_eq!(
        logo_url_for_asset_id("USDC:GA5ZSEJYB37JRC5AVCIA5MOP4RHTM335X2KGX3IHOJAPP5RE34K4KZVN").as_deref(),
        Some("https://stellar.expert/explorer/public/asset/USDC-GA5ZSEJYB37JRC5AVCIA5MOP4RHTM335X2KGX3IHOJAPP5RE34K4KZVN-1/icon")
    );
    assert_eq!(logo_url_for_asset_id("USDC:"), None);
    assert_eq!(logo_url_for_asset_id(":GA"), None);
    assert_eq!(logo_url_for_asset_id("CAS3J7GYLGXMF6TDJBBYYSE3HQ6BBSMLNUQ34T6TZMYMW2EVH34XOWMA"), None);
}
