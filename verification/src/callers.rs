//! The pool of bot accounts that sign transactions: which account a new
//! transaction takes (round robin over the free ones), the cooldown after a
//! broadcast, and one account per public key.

use vstd::prelude::*;

use crate::text::str_eq;

verus! {

/// After send, block caller reuse for about one ledger (Stellar ~5s).
pub const DEFAULT_CALLER_COOLDOWN_MS: u64 = 5_000;

/// The state of the caller accounts: for each, the instant (ms) until which
/// it cools down and whether a transaction holds it; and the round-robin
/// cursor.
#[derive(Debug, Clone)]
pub struct CallerSlots {
    pub busy_until_ms: Vec<u64>,
    pub held: Vec<bool>,
    pub next: usize,
}

impl CallerSlots {
    /// One cooldown and one hold flag per account.
    pub open spec fn well_formed(&self) -> bool {
        self.busy_until_ms@.len() == self.held@.len()
    }

    /// Account `i` can be taken at `now`: not cooling down and not held.
    pub open spec fn available(&self, i: int, now: u64) -> bool {
        self.busy_until_ms@[i] <= now && !self.held@[i]
    }

    /// `n` free accounts.
    pub fn new(n: usize) -> (r: Self)
        ensures
            r.well_formed(),
            r.busy_until_ms@.len() == n,
            forall|i: int| 0 <= i < n ==> r.busy_until_ms@[i] == 0 && !r.held@[i],
            r.next == 0,
    {
        CallerSlots { busy_until_ms: vec![0u64; n], held: vec![false; n], next: 0 }
    }

    /// How many accounts there are.
    pub fn len(&self) -> (r: usize)
        ensures
            r == self.busy_until_ms@.len(),
    {
        self.busy_until_ms.len()
    }

    /// Take a free account, trying them in turn from the cursor (which
    /// moves on by one each call): the first that is neither cooling down
    /// nor held is taken and held; `None` when every account is busy.
    pub fn try_acquire(&mut self, now_ms: u64) -> (r: Option<usize>)
        requires
            old(self).well_formed(),
        ensures
            final(self).well_formed(),
            final(self).busy_until_ms@ == old(self).busy_until_ms@,
            ({
                let n = old(self).held@.len() as int;
                &&& n == 0 ==> r is None && final(self).next == old(self).next
                &&& n > 0 ==> final(self).next == (if old(self).next == usize::MAX {
                    0
                } else {
                    old(self).next + 1
                })
                &&& match r {
                    Some(idx) => {
                        let start = (old(self).next as int) % n;
                        let offset = (idx - start + n) % n;
                        &&& idx < n
                        &&& old(self).available(idx as int, now_ms)
                        &&& final(self).held@ == old(self).held@.update(idx as int, true)
                        &&& forall|k: int| 0 <= k < offset ==> !#[trigger] old(self).available((start + k) % n, now_ms)
                    },
                    None => {
                        &&& final(self).held@ == old(self).held@
                        &&& forall|i: int| 0 <= i < n ==> !#[trigger] old(self).available(i, now_ms)
                    },
                }
            }),
    {
        let n = self.held.len();
        if n == 0 {
            return None;
        }
        let start = self.next % n;
        self.next = if self.next == usize::MAX {
            0
        } else {
            self.next + 1
        };
        let mut i: usize = 0;
        while i < n
            invariant
                n == self.held@.len(),
                n == old(self).held@.len(),
                start == old(self).next % n,
                start < n,
                self.well_formed(),
                self.held@ == old(self).held@,
                self.busy_until_ms@ == old(self).busy_until_ms@,
                self.next == (if old(self).next == usize::MAX {
                    0
                } else {
                    old(self).next + 1
                }),
                i <= n,
                forall|k: int| 0 <= k < i ==> !#[trigger] old(self).available((start + k) % (n as int), now_ms),
            decreases n - i,
        {
            let idx = if i < n - start {
                start + i
            } else {
                i - (n - start)
            };
            proof {
                if start + i < n {
                    vstd::arithmetic::div_mod::lemma_small_mod((start + i) as nat, n as nat);
                } else {
                    vstd::arithmetic::div_mod::lemma_mod_add_multiples_vanish((start + i - n) as int, n as int);
                    vstd::arithmetic::div_mod::lemma_small_mod((start + i - n) as nat, n as nat);
                }
                assert(idx as int == (start + i) % (n as int));
            }
            if self.busy_until_ms[idx] <= now_ms && !self.held[idx] {
                self.held.set(idx, true);
                proof {
                    let off = (idx - start + n) % (n as int);
                    if start + i < n {
                        vstd::arithmetic::div_mod::lemma_mod_add_multiples_vanish(i as int, n as int);
                        vstd::arithmetic::div_mod::lemma_small_mod(i as nat, n as nat);
                    } else {
                        vstd::arithmetic::div_mod::lemma_small_mod(i as nat, n as nat);
                    }
                    assert(off == i);
                }
                return Some(idx);
            }
            i = i + 1;
        }
        proof {
            assert forall|j: int| 0 <= j < n implies !#[trigger] old(self).available(j, now_ms) by {
                let k = (j - start + n) % (n as int);
                vstd::arithmetic::div_mod::lemma_mod_bound(j - start + n, n as int);
                if j >= start {
                    vstd::arithmetic::div_mod::lemma_mod_add_multiples_vanish(j - start, n as int);
                    vstd::arithmetic::div_mod::lemma_small_mod((j - start) as nat, n as nat);
                    vstd::arithmetic::div_mod::lemma_small_mod(j as nat, n as nat);
                    assert((start + k) % (n as int) == j);
                } else {
                    vstd::arithmetic::div_mod::lemma_small_mod((j - start + n) as nat, n as nat);
                    vstd::arithmetic::div_mod::lemma_mod_add_multiples_vanish(j, n as int);
                    vstd::arithmetic::div_mod::lemma_small_mod(j as nat, n as nat);
                    assert(start + k == j + n);
                    assert((start + k) % (n as int) == j);
                }
                assert(!old(self).available((start + k) % (n as int), now_ms));
            }
        }
        None
    }

    /// Give an account back when its transaction no longer needs it.
    pub fn release(&mut self, idx: usize)
        requires
            old(self).well_formed(),
            idx < old(self).held@.len(),
        ensures
            final(self).well_formed(),
            final(self).held@ == old(self).held@.update(idx as int, false),
            final(self).busy_until_ms@ == old(self).busy_until_ms@,
            final(self).next == old(self).next,
    {
        self.held.set(idx, false);
    }

    /// Keep an account out of use until about one ledger after a broadcast:
    /// `now + cooldown` (saturating).
    pub fn mark_in_flight(&mut self, idx: usize, now_ms: u64, cooldown_ms: u64)
        requires
            old(self).well_formed(),
            idx < old(self).held@.len(),
        ensures
            final(self).well_formed(),
            final(self).busy_until_ms@ == old(self).busy_until_ms@.update(
                idx as int,
                if now_ms + cooldown_ms > u64::MAX { u64::MAX } else { (now_ms + cooldown_ms) as u64 },
            ),
            final(self).held@ == old(self).held@,
            final(self).next == old(self).next,
    {
        let until = match now_ms.checked_add(cooldown_ms) {
            Some(t) => t,
            None => u64::MAX,
        };
        self.busy_until_ms.set(idx, until);
    }
}

/// An account that is held is never taken again before it is released.
pub proof fn lemma_held_account_not_reacquired(before: CallerSlots, idx: int, now: u64)
    requires
        before.well_formed(),
        0 <= idx < before.held@.len(),
        before.held@[idx],
    ensures
        !before.available(idx, now),
{
}

/// The keys that come first among equal ones: `i` is kept when no earlier
/// key equals it.
pub open spec fn first_occurrences(keys: Seq<Seq<char>>, n: nat) -> Seq<int>
    decreases n,
{
    if n == 0 {
        Seq::empty()
    } else {
        let prev = first_occurrences(keys, (n - 1) as nat);
        if exists|j: int| 0 <= j < n - 1 && #[trigger] keys[j] == keys[n - 1] {
            prev
        } else {
            prev.push(n - 1)
        }
    }
}

/// The positions of the public keys to keep, one per key, first come.
pub fn unique_key_positions(keys: &Vec<String>) -> (r: Vec<usize>)
    ensures
        r@.len() == first_occurrences(keys.deep_view(), keys@.len()).len(),
        forall|k: int| 0 <= k < r@.len() ==> r@[k] as int == #[trigger] first_occurrences(keys.deep_view(), keys@.len())[k],
{
    let ghost kv = keys.deep_view();
    let mut out: Vec<usize> = Vec::new();
    let mut i: usize = 0;
    while i < keys.len()
        invariant
            kv == keys.deep_view(),
            i <= keys@.len(),
            out@.len() == first_occurrences(kv, i as nat).len(),
            forall|k: int| 0 <= k < out@.len() ==> out@[k] as int == #[trigger] first_occurrences(kv, i as nat)[k],
        decreases keys.len() - i,
    {
        let mut seen = false;
        let mut j: usize = 0;
        while j < i
            invariant
                kv == keys.deep_view(),
                i < keys@.len(),
                j <= i,
                seen == exists|m: int| 0 <= m < j && #[trigger] kv[m] == kv[i as int],
            decreases i - j,
        {
            if str_eq(keys[j].as_str(), keys[i].as_str()) {
                proof {
                    assert(kv[j as int] == kv[i as int]);
                }
                seen = true;
            }
            j = j + 1;
        }
        let ghost prev = out@;
        if !seen {
            out.push(i);
            proof {
                assert forall|k: int| 0 <= k < out@.len() implies out@[k] as int == #[trigger] first_occurrences(kv, (i + 1) as nat)[k] by {
                    if k < prev.len() {
                        assert(out@[k] == prev[k]);
                    }
                }
            }
        }
        i = i + 1;
    }
    out
}

} // verus!
