use lumagg::pipeline::{record_route_evaluated, scan_cycle_items};
use lumagg::stats::ArbStats;

#[test]
fn scan_cycle_pairs_each_base_with_other_bridges() {
    let bases = vec!["XLM".to_string(), "USDC".to_string()];
    let bridges = vec!["USDC".to_string(), "AQUA".to_string(), "XLM".to_string()];
    let items = scan_cycle_items(&bases, &bridges);
    let pairs: Vec<(String, String)> = items.into_iter().map(|i| (i.base, i.bridge)).collect();
    assert_eq!(
        pairs,
        vec![
            ("XLM".to_string(), "USDC".to_string()),
            ("XLM".to_string(), "AQUA".to_string()),
            ("USDC".to_string(), "AQUA".to_string()),
            ("USDC".to_string(), "XLM".to_string()),
        ]
    );
    assert!(scan_cycle_items(&vec![], &bridges).is_empty());
}

#[test]
fn evaluated_routes_are_counted() {
    let mut stats = ArbStats::new();
    record_route_evaluated(&mut stats);
    record_route_evaluated(&mut stats);
    assert_eq!(stats.routes_evaluated, 2);
}
