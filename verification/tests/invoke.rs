use lumagg::invoke::{min_amount_out_break_even, source_to_dex_type};

#[test]
fn min_amount_out_requires_positive_return() {
    assert_eq!(min_amount_out_break_even(1_000_000_000), 1_000_000_001);
}

#[test]
fn min_amount_out_caps_at_i128_max() {
    assert_eq!(min_amount_out_break_even(u128::MAX), i128::MAX);
    assert_eq!(min_amount_out_break_even(i128::MAX as u128), i128::MAX);
}

#[test]
fn dex_types_of_sources() {
    assert_eq!(source_to_dex_type("aquarius").unwrap(), "aquarius");
    assert_eq!(source_to_dex_type("aquarius_clmm").unwrap(), "aquarius");
    assert_eq!(source_to_dex_type("soroswap").unwrap(), "soroswap");
    assert_eq!(source_to_dex_type("phoenix").unwrap(), "phoenix");
    assert_eq!(source_to_dex_type("sushi").unwrap(), "sushi");
    assert_eq!(source_to_dex_type("comet").unwrap(), "comet");
    assert_eq!(source_to_dex_type("classic").unwrap_err().source, "classic");
}
