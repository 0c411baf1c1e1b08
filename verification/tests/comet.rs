use lumagg::comet::{contract_hash_from_xdr_bytes, quote_comet_pool, CometPoolQuoteState};
use lumagg::comet_math::{c_pow, calc_out_given_in, CometRecord, BONE, CPOW_PRECISION, STROOP_SCALAR};

#[test]
fn test_basic_swap_equal_weights() {
    let in_rec = CometRecord { balance: 1_000_0000000, weight: 5_000_000, scalar: STROOP_SCALAR };
    let out_rec = CometRecord { balance: 1_000_0000000, weight: 5_000_000, scalar: STROOP_SCALAR };
    let out = calc_out_given_in(&in_rec, &out_rec, 10_0000000, 30_000);
    assert!(out > 9_0000000 && out < 10_0000000, "out = {}", out);
}

#[test]
fn test_swap_different_weights() {
    let in_rec = CometRecord { balance: 67_000_0000000, weight: 8_000_000, scalar: STROOP_SCALAR };
    let out_rec = CometRecord { balance: 830_0000000, weight: 2_000_000, scalar: STROOP_SCALAR };
    let out = calc_out_given_in(&in_rec, &out_rec, 1000_0000000, 30_000);
    assert!(out > 0, "out = {}", out);
}

#[test]
fn test_zero_input() {
    let rec = CometRecord { balance: 1000_0000000, weight: 5_000_000, scalar: STROOP_SCALAR };
    let out = calc_out_given_in(&rec, &rec, 0, 30_000);
    assert_eq!(out, 0);
}

#[test]
fn test_c_pow_integer() {
    let base = BONE / 2;
    let exp = 2 * BONE;
    let result = c_pow(base, exp, false);
    let expected = BONE / 4;
    let diff = (result - expected).unsigned_abs();
    assert!(diff < CPOW_PRECISION as u128, "result={}, expected={}", result, expected);
}

#[test]
fn test_c_pow_fractional() {
    let base = BONE / 2;
    let exp = BONE / 2;
    let result = c_pow(base, exp, false);
    let expected = 707_106_781_186_547_524i128;
    let diff = (result - expected).unsigned_abs();
    assert!(diff < (expected as u128 / 10000), "result={}, expected={}, diff={}", result, expected, diff);
}

#[test]
fn c_pow_edges() {
    assert_eq!(c_pow(0, BONE, false), 0);
    assert_eq!(c_pow(-5, BONE, false), 0);
    assert_eq!(c_pow(2 * BONE, 3 * BONE, false), BONE);
    assert_eq!(c_pow(BONE / 2, BONE, false), BONE / 2);
    assert_eq!(c_pow(BONE / 2, 0, false), BONE);
}

#[test]
fn comet_quote_looks_up_both_tokens() {
    let state = CometPoolQuoteState {
        records: vec![
            ("BLND".to_string(), CometRecord { balance: 67_000_0000000, weight: 8_000_000, scalar: STROOP_SCALAR }),
            ("USDC".to_string(), CometRecord { balance: 830_0000000, weight: 2_000_000, scalar: STROOP_SCALAR }),
        ],
        swap_fee: 30_000,
    };
    let q = quote_comet_pool(&state, "BLND", "USDC", 1000_0000000).unwrap();
    let direct = calc_out_given_in(&state.records[0].1, &state.records[1].1, 1000_0000000, 30_000);
    assert_eq!(q.amount_out as i128, direct);
    assert_eq!(q.fee_bps, 30);
    // 1000e7 * 10_000 / (2 * 67_000e7) = 74
    assert_eq!(q.price_impact_bps, 74);
    assert!(quote_comet_pool(&state, "BLND", "XLM", 1000_0000000).is_none());
    assert!(quote_comet_pool(&state, "BLND", "USDC", 0).is_none());
}

#[test]
fn contract_hash_is_read_after_the_first_marker() {
    let mut raw = vec![9u8, 9, 9, 0, 0, 0, 0x12, 0, 0, 0, 1];
    for b in 0..32u8 {
        raw.push(b + 100);
    }
    raw.extend_from_slice(&[0, 0, 0, 0x12, 0, 0, 0, 1]);
    let hash = contract_hash_from_xdr_bytes(&raw).expect("a hash follows the marker");
    let expected: Vec<u8> = (0..32u8).map(|b| b + 100).collect();
    assert_eq!(hash.to_vec(), expected);
}

#[test]
fn contract_hash_absent_without_marker() {
    assert_eq!(contract_hash_from_xdr_bytes(&[]), None);
    assert_eq!(contract_hash_from_xdr_bytes(&[1, 2, 3]), None);
    assert_eq!(contract_hash_from_xdr_bytes(&[7u8; 64]), None);
}
