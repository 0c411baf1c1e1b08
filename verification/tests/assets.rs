use lumagg::token_logo::{escape_xml, fallback_svg, hex_color, token_color_bytes};
use lumagg::utils::{compute_sac_contract_id, is_contract_address, SacError};

const MAINNET: &str = "Public Global Stellar Network ; September 2015";
const TESTNET: &str = "Test SDF Network ; September 2015";
const USDC: &str = "USDC:GA5ZSEJYB37JRC5AVCIA5MOP4RHTM335X2KGX3IHOJAPP5RE34K4KZVN";

#[test]
fn derives_mainnet_native_sac() {
    assert_eq!(
        compute_sac_contract_id("native", MAINNET).unwrap(),
        "CAS3J7GYLGXMF6TDJBBYYSE3HQ6BBSMLNUQ34T6TZMYMW2EVH34XOWMA"
    );
}

#[test]
fn derives_mainnet_usdc_sac() {
    assert_eq!(
        compute_sac_contract_id(USDC, MAINNET).unwrap(),
        "CCW67TSZV3SSS2HXMBQ5JFGCKJNXKZM7UQUWUZPUTHXSTZLEO7SJMI75"
    );
}

#[test]
fn sac_addresses_are_network_specific() {
    assert_ne!(
        compute_sac_contract_id("native", MAINNET).unwrap(),
        compute_sac_contract_id("native", TESTNET).unwrap()
    );
    assert_ne!(
        compute_sac_contract_id(USDC, MAINNET).unwrap(),
        compute_sac_contract_id(USDC, TESTNET).unwrap()
    );
}

#[test]
fn rejects_invalid_classic_assets() {
    assert!(compute_sac_contract_id("", MAINNET).is_err());
    assert!(compute_sac_contract_id(
        "TOO_LONG_ASSET:GA5ZSEJYB37JRC5AVCIA5MOP4RHTM335X2KGX3IHOJAPP5RE34K4KZVN",
        MAINNET
    )
    .is_err());
    assert!(compute_sac_contract_id("USDC:not-an-account", MAINNET).is_err());
}

#[test]
fn sac_errors_name_the_failing_part() {
    assert_eq!(compute_sac_contract_id("", MAINNET), Err(SacError::InvalidFormat));
    assert_eq!(compute_sac_contract_id("USDC:not-an-account", MAINNET), Err(SacError::InvalidIssuer));
    assert_eq!(
        compute_sac_contract_id(":GA5ZSEJYB37JRC5AVCIA5MOP4RHTM335X2KGX3IHOJAPP5RE34K4KZVN", MAINNET),
        Err(SacError::InvalidCodeLength)
    );
    let long = compute_sac_contract_id("LONGASSET:GA5ZSEJYB37JRC5AVCIA5MOP4RHTM335X2KGX3IHOJAPP5RE34K4KZVN", MAINNET);
    assert!(is_contract_address(&long.unwrap()));
}

#[test]
fn fallback_svg_escapes_token_symbol() {
    let svg = fallback_svg("A<&", "CA123", "#ffffff");
    assert!(svg.contains("A&lt;&amp;"));
    assert!(!svg.contains("A<&"));
}

#[test]
fn fallback_svg_layout() {
    let (r, g, b) = token_color_bytes("CA123");
    let bg = hex_color(r, g, b);
    let svg = fallback_svg("XLM", "CA123", "#1a1a1a");
    let expected = format!(
        "<svg xmlns=\"http://www.w3.org/2000/svg\" width=\"128\" height=\"128\" viewBox=\"0 0 128 128\"><rect width=\"128\" height=\"128\" rx=\"64\" fill=\"{bg}\"/><text x=\"64\" y=\"64\" dy=\"0.35em\" text-anchor=\"middle\" fill=\"#1a1a1a\" font-family=\"sans-serif\" font-size=\"36\" font-weight=\"600\">XLM</text></svg>"
    );
    assert_eq!(svg, expected);
}

#[test]
fn hex_colors_and_escapes() {
    assert_eq!(hex_color(0, 171, 255), "#00abff");
    assert_eq!(escape_xml("a&b<c>d\"e'f"), "a&amp;b&lt;c&gt;d&quot;e&apos;f");
    assert_eq!(escape_xml("plain ✓"), "plain ✓");
}

#[test]
fn token_colors_follow_the_digest() {
    // SHA-256("abc") starts with ba 78 16.
    assert_eq!(token_color_bytes("abc"), (0xba, 0x78, 0x16));
    assert_eq!(hex_color(0xba, 0x78, 0x16), "#ba7816");
}
