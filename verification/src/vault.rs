//! Vault balances: the cache of balance reads, and the trade-size cap they
//! give.

use std::time::Instant;

use vstd::prelude::*;
use vstd::string::StringExecFns;

use crate::clock::{clock_millis, instant_now};
use crate::text::str_eq;

verus! {

/// How long a cached vault balance stays valid, in milliseconds.
pub const VAULT_BALANCE_CACHE_TTL_MS: u128 = 30_000;

/// One cached balance: its key, the balance, and when it was read
/// (milliseconds since the cache was made).
#[derive(Debug)]
pub struct CachedBalance {
    pub key: String,
    pub balance: u128,
    pub at_ms: u128,
}

/// Cached vault token balances, one entry per key.
pub struct VaultBalanceCache {
    epoch: Instant,
    entries: Vec<CachedBalance>,
}

/// The cache key of a vault's balance of a token: `vault|token`.
pub fn balance_key(vault: &str, token: &str) -> (r: String)
    ensures
        r@ == vault@ + "|"@ + token@,
{
    let mut key = vault.to_owned();
    key.append("|");
    key.append(token);
    key
}

/// Whether an entry read at `at` is still fresh at `now`.
pub open spec fn balance_fresh(at: u128, now: u128) -> bool {
    (if now >= at {
        now - at
    } else {
        0
    }) < VAULT_BALANCE_CACHE_TTL_MS
}

impl VaultBalanceCache {
    pub closed spec fn entries(&self) -> Seq<CachedBalance> {
        self.entries@
    }

    /// One entry per key.
    pub open spec fn well_formed(&self) -> bool {
        forall|i: int, j: int|
            0 <= i < j < self.entries().len() ==> #[trigger] self.entries()[i].key@ != #[trigger] self.entries()[j].key@
    }

    /// An empty cache.
    pub fn new() -> (r: Self)
        ensures
            r.well_formed(),
            r.entries().len() == 0,
    {
        VaultBalanceCache { epoch: instant_now(), entries: Vec::new() }
    }

    fn position(&self, key: &str) -> (r: Option<usize>)
        ensures
            r matches Some(i) ==> i < self.entries().len() && self.entries()[i as int].key@ == key@,
            r is None ==> forall|j: int| 0 <= j < self.entries().len() ==> self.entries()[j].key@ != key@,
    {
        let mut i: usize = 0;
        while i < self.entries.len()
            invariant
                i <= self.entries@.len(),
                forall|j: int| 0 <= j < i ==> self.entries@[j].key@ != key@,
            decreases self.entries.len() - i,
        {
            if str_eq(self.entries[i].key.as_str(), key) {
                return Some(i);
            }
            i = i + 1;
        }
        None
    }

    /// `r` is what the cache answers for `key` at `now_ms`: the balance of
    /// the entry for `key` when it is fresh then, else nothing.
    pub open spec fn cached_answer(&self, key: Seq<char>, now_ms: u128, r: Option<u128>) -> bool {
        &&& r matches Some(b) ==> exists|i: int|
            0 <= i < self.entries().len() && #[trigger] self.entries()[i].key@ == key && self.entries()[i].balance == b
                && balance_fresh(self.entries()[i].at_ms, now_ms)
        &&& r is None ==> forall|i: int|
            0 <= i < self.entries().len() && #[trigger] self.entries()[i].key@ == key ==> !balance_fresh(
                self.entries()[i].at_ms,
                now_ms,
            )
    }

    /// The balance cached under `key`, when it is fresh at `now_ms`.
    pub fn cached_at(&self, key: &str, now_ms: u128) -> (r: Option<u128>)
        requires
            self.well_formed(),
        ensures
            self.cached_answer(key@, now_ms, r),
    {
        match self.position(key) {
            Some(i) => {
                let e = &self.entries[i];
                let age: u128 = if now_ms >= e.at_ms {
                    now_ms - e.at_ms
                } else {
                    0
                };
                if age < VAULT_BALANCE_CACHE_TTL_MS {
                    Some(e.balance)
                } else {
                    proof {
                        assert forall|j: int|
                            0 <= j < self.entries().len() && #[trigger] self.entries()[j].key@ == key@ implies !balance_fresh(
                            self.entries()[j].at_ms,
                            now_ms,
                        ) by {
                            if j != i {
                                if j < i {
                                    assert(self.entries()[j].key@ != self.entries()[i as int].key@);
                                } else {
                                    assert(self.entries()[i as int].key@ != self.entries()[j].key@);
                                }
                            }
                        }
                    }
                    None
                }
            },
            None => None,
        }
    }

    /// The balance cached under `key`, when it is still fresh on the clock:
    /// the answer of `cached_at` at the time read from the clock.
    pub fn cached(&self, key: &str) -> (r: Option<u128>)
        requires
            self.well_formed(),
        ensures
            exists|now_ms: u128| #[trigger] self.cached_answer(key@, now_ms, r),
    {
        let now = clock_millis(&self.epoch);
        self.cached_at(key, now)
    }

    /// Remember `balance` under `key`, read now: an entry it had is replaced
    /// in place, else one is added at the end; every other entry stays.
    pub fn store(&mut self, key: String, balance: u128)
        requires
            old(self).well_formed(),
        ensures
            final(self).well_formed(),
            exists|p: int|
                0 <= p < final(self).entries().len() && #[trigger] final(self).entries()[p].key@ == key@
                    && final(self).entries()[p].balance == balance && (forall|j: int|
                    0 <= j < final(self).entries().len() && j != p ==> #[trigger] final(self).entries()[j]
                        == old(self).entries()[j]) && (final(self).entries().len() == old(self).entries().len() || (
                final(self).entries().len() == old(self).entries().len() + 1 && p == old(self).entries().len())),
    {
        let now = clock_millis(&self.epoch);
        let ghost k = key@;
        let ghost before = self.entries();
        match self.position(key.as_str()) {
            Some(i) => {
                self.entries.set(i, CachedBalance { key, balance, at_ms: now });
                proof {
                    let after = self.entries();
                    assert(after[i as int].key@ == k);
                    assert forall|a: int, b: int| 0 <= a < b < after.len() implies #[trigger] after[a].key@
                        != #[trigger] after[b].key@ by {
                        if a != i && b != i {
                            assert(after[a] == before[a] && after[b] == before[b]);
                        } else if a == i {
                            assert(after[b] == before[b]);
                            assert(before[i as int].key@ != before[b].key@);
                        } else {
                            assert(after[a] == before[a]);
                            assert(before[a].key@ != before[i as int].key@);
                        }
                    }
                    assert(forall|j: int| 0 <= j < after.len() && j != i ==> #[trigger] after[j] == before[j]);
                }
            },
            None => {
                self.entries.push(CachedBalance { key, balance, at_ms: now });
                proof {
                    let after = self.entries();
                    let last = after.len() - 1;
                    assert(after[last].key@ == k);
                    assert forall|a: int, b: int| 0 <= a < b < after.len() implies #[trigger] after[a].key@
                        != #[trigger] after[b].key@ by {
                        if b == last {
                            assert(after[a] == before[a]);
                            assert(before[a].key@ != k);
                        } else {
                            assert(after[a] == before[a] && after[b] == before[b]);
                        }
                    }
                    assert(forall|j: int| 0 <= j < after.len() && j != last ==> #[trigger] after[j] == before[j]);
                }
            },
        }
    }
}

/// Trade-size ceiling: the configured maximum, capped by the vault's base
/// balance when one was read (no vault, or a failed read, leaves the
/// configured maximum).
pub fn cap_max_amount_in(cfg_max: u128, vault_balance: Option<u128>) -> (r: u128)
    ensures
        r == (match vault_balance {
            Some(b) => if b < cfg_max {
                b
            } else {
                cfg_max
            },
            None => cfg_max,
        }),
{
    match vault_balance {
        Some(b) => if b < cfg_max {
            b
        } else {
            cfg_max
        },
        None => cfg_max,
    }
}

} // verus!
