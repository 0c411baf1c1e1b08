use lumagg::stable_math::StablePool;

#[test]
fn test_stable_2token_equal() {
    let pool = StablePool {
        reserves: vec![1_000_0000000, 1_000_0000000],
        decimals: vec![7, 7],
        amp: 1500,
        fee_bps: 30,
    };
    let out = pool.get_dy(0, 1, 10_0000000);
    assert!(out > 9_9000000, "out={}, expected ~9.97", out);
    assert!(out < 10_0000000, "out={}, should be less than input", out);
}

#[test]
fn test_stable_3token() {
    let pool = StablePool {
        reserves: vec![329_248_0000000, 7_225_0000000, 1_776_417_0000000],
        decimals: vec![7, 7, 7],
        amp: 100,
        fee_bps: 30,
    };
    let out = pool.get_dy(1, 0, 1_0000000);
    assert!(out > 0, "should get some output");
}

#[test]
fn test_stable_zero_input() {
    let pool = StablePool {
        reserves: vec![1000_0000000, 1000_0000000],
        decimals: vec![7, 7],
        amp: 1500,
        fee_bps: 30,
    };
    assert_eq!(pool.get_dy(0, 1, 0), 0);
}

#[test]
fn test_stable_same_token() {
    let pool = StablePool {
        reserves: vec![1000_0000000, 1000_0000000],
        decimals: vec![7, 7],
        amp: 1500,
        fee_bps: 30,
    };
    assert_eq!(pool.get_dy(0, 0, 10_0000000), 0);
}
