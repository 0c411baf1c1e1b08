use lumagg::callers::{unique_key_positions, CallerSlots, DEFAULT_CALLER_COOLDOWN_MS};

#[test]
fn round_robin_hands_out_each_free_account_once() {
    let mut slots = CallerSlots::new(3);
    let a = slots.try_acquire(1_000).unwrap();
    let b = slots.try_acquire(1_000).unwrap();
    let c = slots.try_acquire(1_000).unwrap();
    assert_eq!((a, b, c), (0, 1, 2));
    assert_eq!(slots.try_acquire(1_000), None);
    slots.release(b);
    assert_eq!(slots.try_acquire(1_000), Some(1));
}

#[test]
fn cooldown_keeps_an_account_out_until_it_ends() {
    let mut slots = CallerSlots::new(2);
    let a = slots.try_acquire(0).unwrap();
    slots.mark_in_flight(a, 10_000, DEFAULT_CALLER_COOLDOWN_MS);
    slots.release(a);
    assert_eq!(slots.busy_until_ms[a], 15_000);
    // The cursor now starts at account 1, then wraps to account 0.
    assert_eq!(slots.try_acquire(12_000), Some(1));
    assert_eq!(slots.try_acquire(12_000), None);
    assert_eq!(slots.try_acquire(15_000), Some(0));
    slots.mark_in_flight(1, u64::MAX - 1, 10);
    assert_eq!(slots.busy_until_ms[1], u64::MAX);
}

#[test]
fn empty_pool_gives_nothing() {
    let mut slots = CallerSlots::new(0);
    assert_eq!(slots.len(), 0);
    assert_eq!(slots.try_acquire(5), None);
    assert_eq!(slots.next, 0);
}

#[test]
fn duplicate_public_keys_share_one_account() {
    let keys: Vec<String> = vec!["GA".into(), "GB".into(), "GA".into(), "GC".into(), "GB".into()];
    assert_eq!(unique_key_positions(&keys), vec![0, 1, 3]);
    let one: Vec<String> = vec!["GA".into(), "GA".into()];
    assert_eq!(unique_key_positions(&one), vec![0]);
}
