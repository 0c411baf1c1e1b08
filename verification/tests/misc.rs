use lumagg::classic_dex::{estimate_classic_impact_bps, parse_stellar_amount};
use lumagg::pool_index::KnownPoolIndex;
use lumagg::token_logo::extension_for_content_type;
use lumagg::utils::{is_contract_address, parse_asset_type, AssetType};
use lumagg::vault::{balance_key, cap_max_amount_in, VaultBalanceCache};
use lumagg::xlm_price::{MarkOutOfBand, XlmUsdcPrice};

#[test]
fn starts_at_fallback() {
    let p = XlmUsdcPrice::new(1_800_000);
    assert_eq!(p.get(), 1_800_000);
    assert_eq!(p.fallback(), 1_800_000);
}

#[test]
fn xlm_mark_keeps_previous_outside_band() {
    let mut p = XlmUsdcPrice::new(0);
    assert_eq!(p.get(), 1);
    assert_eq!(p.apply_quote(3_000_000), Ok(3_000_000));
    assert_eq!(p.get(), 3_000_000);
    assert_eq!(p.apply_quote(20_000_000), Err(MarkOutOfBand { quoted_e7: 20_000_000 }));
    assert_eq!(p.get(), 3_000_000);
    assert_eq!(p.fallback(), 1);
}

#[test]
fn test_parse_stellar_amount() {
    assert_eq!(parse_stellar_amount("15.1355107").unwrap(), 151355107);
    assert_eq!(parse_stellar_amount("100.0000000").unwrap(), 1000000000);
    assert_eq!(parse_stellar_amount("0.0000001").unwrap(), 1);
    assert_eq!(parse_stellar_amount("1000").unwrap(), 10000000000);
}

#[test]
fn stellar_amount_reads_unusual_forms() {
    assert_eq!(parse_stellar_amount("2.5").unwrap(), 25_000_000);
    assert_eq!(parse_stellar_amount("1.123456789").unwrap(), 11_234_567);
    assert_eq!(parse_stellar_amount("abc.5").unwrap(), 5_000_000);
    assert_eq!(parse_stellar_amount("+3.1.9").unwrap(), 31_000_000);
    assert_eq!(parse_stellar_amount("").unwrap(), 0);
}

#[test]
fn test_classic_impact_uses_bps_scaling() {
    let hundred_xlm = 1_000_000_000u128;
    assert!(estimate_classic_impact_bps(hundred_xlm) > 0, "meaningful trade should have non-zero impact bps");
    let one_xlm = 10_000_000u128;
    assert!(estimate_classic_impact_bps(one_xlm) <= 10_000, "impact must stay within bps range");
}

#[test]
fn classic_impact_exact_values() {
    assert_eq!(estimate_classic_impact_bps(0), 0);
    assert_eq!(estimate_classic_impact_bps(1_000_000_000), 1);
    assert_eq!(estimate_classic_impact_bps(u128::MAX), 10_000);
}

#[test]
fn only_supported_raster_content_types_are_accepted() {
    assert_eq!(extension_for_content_type("image/png"), Some("png"));
    assert_eq!(extension_for_content_type("image/jpeg"), Some("jpg"));
    assert_eq!(extension_for_content_type("image/webp"), Some("webp"));
    assert_eq!(extension_for_content_type("image/svg+xml"), None);
    assert_eq!(extension_for_content_type("text/html"), None);
}

#[test]
fn content_type_parameters_and_case_are_ignored() {
    assert_eq!(extension_for_content_type(" Image/PNG ; charset=binary"), Some("png"));
    assert_eq!(extension_for_content_type("image/jpeg;q=1"), Some("jpg"));
    assert_eq!(extension_for_content_type(""), None);
}

#[test]
fn asset_kinds() {
    assert_eq!(parse_asset_type("native"), AssetType::Native);
    assert_eq!(parse_asset_type("USDC:GA5ZSEJYB37JRC5AVCIA5MOP4RHTM335X2KGX3IHOJAPP5RE34K4KZVN"), AssetType::Classic);
    assert_eq!(parse_asset_type("CAS3J7GYLGXMF6TDJBBYYSE3HQ6BBSMLNUQ34T6TZMYMW2EVH34XOWMA"), AssetType::Contract);
    assert_eq!(parse_asset_type("GAS3J7GYLGXMF6TDJBBYYSE3HQ6BBSMLNUQ34T6TZMYMW2EVH34XOWMA"), AssetType::Unknown);
    assert!(is_contract_address("CAS3J7GYLGXMF6TDJBBYYSE3HQ6BBSMLNUQ34T6TZMYMW2EVH34XOWMA"));
    assert!(!is_contract_address("CAS3"));
}

#[test]
fn pool_index_keeps_one_entry_per_contract() {
    let pool = "CA4HEQTL2WPEUYKYKCDOHCDNIV4QHNJ7EL4J4NQ6VADP7SYHVRYZ7AW2";
    let mut index = KnownPoolIndex::new();
    index.insert("soroswap", pool);
    index.insert("classic", "not-a-contract");
    index.insert("aquarius", pool);
    assert_eq!(index.len(), 1);
    assert_eq!(index.lookup_contract(pool).unwrap().source, "aquarius");
    assert!(index.lookup_contract("missing").is_none());
}

#[test]
fn vault_cache_and_cap() {
    let mut cache = VaultBalanceCache::new();
    let key = balance_key("VAULT", "TOKEN");
    assert_eq!(key, "VAULT|TOKEN");
    assert_eq!(cache.cached(&key), None);
    cache.store(key.clone(), 42);
    assert_eq!(cache.cached(&key), Some(42));
    assert_eq!(cache.cached_at(&key, 10_000_000), None);
    assert_eq!(cap_max_amount_in(100, Some(40)), 40);
    assert_eq!(cap_max_amount_in(100, Some(400)), 100);
    assert_eq!(cap_max_amount_in(100, None), 100);
}
