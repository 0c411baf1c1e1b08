use std::time::Duration;

use lumagg::dedup::{path_dedup_key, SubmittedPathCache};

#[test]
fn dedup_blocks_repeat_path() {
    let mut cache = SubmittedPathCache::new(Duration::from_secs(60).as_nanos());
    let key = path_dedup_key(&["p1".into(), "p2".into()]);
    assert!(cache.try_reserve(key.clone()));
    assert!(!cache.try_reserve(key.clone()));
    assert!(cache.recently_submitted(&key));
    cache.release(&key);
    assert!(cache.try_reserve(key.clone()));
    cache.mark_submitted(key.clone());
    assert!(cache.recently_submitted(&key));
}

#[test]
fn dedup_key_joins_pools_with_bars() {
    assert_eq!(path_dedup_key(&["p1".into(), "p2".into(), "p3".into()]), "p1|p2|p3");
    assert_eq!(path_dedup_key(&["solo".into()]), "solo");
    assert_eq!(path_dedup_key(&[]), "");
}

#[test]
fn prune_at_drops_expired_entries() {
    let mut cache = SubmittedPathCache::new(Duration::from_secs(6).as_nanos());
    assert!(cache.try_reserve("a".to_string()));
    cache.mark_submitted("b".to_string());
    cache.prune_at(3_000_000_000);
    assert!(cache.recently_submitted("a"));
    cache.prune_at(10_000_000_000_000);
    assert!(!cache.recently_submitted("a"));
    assert!(!cache.recently_submitted("b"));
}

#[test]
fn release_of_unknown_path_is_harmless() {
    let mut cache = SubmittedPathCache::new(Duration::from_secs(6).as_nanos());
    cache.release("missing");
    assert!(!cache.recently_submitted("missing"));
}

#[test]
fn reservations_expire_after_their_window() {
    let mut cache = SubmittedPathCache::new(6_000_000_000);
    assert!(cache.try_reserve_at("p".to_string(), 1_000_000_000));
    assert!(!cache.try_reserve_at("p".to_string(), 100_000_000_000));
    assert!(!cache.try_reserve_at("p".to_string(), 120_999_999_999));
    assert!(cache.try_reserve_at("p".to_string(), 121_000_000_000));
}

#[test]
fn submissions_hold_for_the_ttl() {
    let mut cache = SubmittedPathCache::new(6_000_000_000);
    cache.mark_submitted_at("p".to_string(), 10_000_000_000);
    assert!(!cache.try_reserve_at("p".to_string(), 15_999_999_999));
    assert!(cache.try_reserve_at("p".to_string(), 16_000_000_000));
    assert!(cache.try_reserve_at("q".to_string(), 16_000_000_000));
}

#[test]
fn submissions_keep_the_sub_millisecond_part_of_the_ttl() {
    let mut cache = SubmittedPathCache::new(Duration::from_micros(1_500).as_nanos());
    cache.mark_submitted_at("p".to_string(), 0);
    assert!(!cache.try_reserve_at("p".to_string(), 1_200_000));
    assert!(cache.try_reserve_at("p".to_string(), 1_500_000));
}
