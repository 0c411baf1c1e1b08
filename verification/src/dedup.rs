//! Suppress duplicate submissions for the same pool path within one ledger
//! window: a path is reserved for one execution attempt, released when
//! nothing was broadcast, and marked submitted when it was.

use std::time::Instant;

use vstd::prelude::*;

use crate::bridge::{LegQuote, RoundTripQuote, SubOrder};
use crate::clock::{clock_nanos, instant_now};
use crate::text::{join_strings, joined, str_eq};
use vstd::string::StringExecFns;

verus! {

/// Default time-to-live of a submitted path, in nanoseconds (six seconds,
/// about one Stellar ledger).
pub const DEFAULT_DEDUP_TTL_NANOS: u128 = 6_000_000_000;

/// How long a reservation holds, in nanoseconds (two minutes).
pub const RESERVATION_TTL_NANOS: u128 = 120_000_000_000;

/// What is known of a path, with the time it was recorded (nanoseconds
/// since the cache was made).
#[derive(Debug, Clone, Copy, PartialEq, Eq, Structural)]
pub enum PathState {
    Reserved(u128),
    Submitted(u128),
}

/// One recorded path.
#[derive(Debug)]
pub struct PathEntry {
    pub key: String,
    pub state: PathState,
}

/// Recently reserved or submitted paths, one entry per key.
pub struct SubmittedPathCache {
    ttl_nanos: u128,
    epoch: Instant,
    entries: Vec<PathEntry>,
}


/// Time from `t` to `now`, 0 when `now` is earlier (as `Instant::elapsed`
/// saturates).
pub open spec fn age(t: u128, now: u128) -> int {
    if now >= t {
        now - t
    } else {
        0
    }
}

/// A reservation lives `RESERVATION_TTL_NANOS`, a submission `ttl_nanos`.
pub open spec fn still_fresh(state: PathState, ttl_nanos: u128, now: u128) -> bool {
    match state {
        PathState::Reserved(t) => age(t, now) < RESERVATION_TTL_NANOS,
        PathState::Submitted(t) => age(t, now) < ttl_nanos,
    }
}

/// The entries that are still fresh at `now`, in order.
pub open spec fn pruned(entries: Seq<PathEntry>, ttl_nanos: u128, now: u128) -> Seq<PathEntry> {
    entries.filter(|e: PathEntry| still_fresh(e.state, ttl_nanos, now))
}

/// Whether some entry has key `k`.
pub open spec fn has_key(entries: Seq<PathEntry>, k: Seq<char>) -> bool {
    exists|i: int| 0 <= i < entries.len() && #[trigger] entries[i].key@ == k
}

/// What reserving `key` at `now` does to the entries: the stale ones are
/// dropped; a fresh entry for the key refuses the reservation, else one
/// reserved at `now` is added at the end.
pub open spec fn reserve_outcome(
    entries: Seq<PathEntry>,
    ttl_nanos: u128,
    key: String,
    now: u128,
    r: bool,
    after: Seq<PathEntry>,
) -> bool {
    let p = pruned(entries, ttl_nanos, now);
    if has_key(p, key@) {
        !r && after == p
    } else {
        r && after == p.push(PathEntry { key, state: PathState::Reserved(now) })
    }
}

/// What recording `key` as submitted at `now` does to the entries: the
/// stale ones are dropped; the key's entry becomes submitted at `now` in
/// place, or such an entry is added at the end.
pub open spec fn submit_outcome(entries: Seq<PathEntry>, ttl_nanos: u128, key: String, now: u128, after: Seq<PathEntry>) -> bool {
    let p = pruned(entries, ttl_nanos, now);
    let e = PathEntry { key, state: PathState::Submitted(now) };
    if has_key(p, key@) {
        exists|i: int| 0 <= i < p.len() && #[trigger] p[i].key@ == key@ && after == p.update(i, e)
    } else {
        after == p.push(e)
    }
}

/// No two entries share a key.
pub open spec fn keys_unique(entries: Seq<PathEntry>) -> bool {
    forall|i: int, j: int| 0 <= i < j < entries.len() ==> #[trigger] entries[i].key@ != #[trigger] entries[j].key@
}

/// A subsequence of unique keys has unique keys, and holds no key that the
/// whole does not.
proof fn lemma_filter_keeps_keys(entries: Seq<PathEntry>, pred: spec_fn(PathEntry) -> bool)
    requires
        keys_unique(entries),
    ensures
        keys_unique(entries.filter(pred)),
        forall|k: Seq<char>| has_key(entries.filter(pred), k) ==> has_key(entries, k),
    decreases entries.len(),
{
    reveal(Seq::filter);
    if entries.len() > 0 {
        let rest = entries.drop_last();
        assert(keys_unique(rest)) by {
            assert forall|i: int, j: int| 0 <= i < j < rest.len() implies #[trigger] rest[i].key@ != #[trigger] rest[j].key@ by {
                assert(rest[i] == entries[i] && rest[j] == entries[j]);
            }
        }
        lemma_filter_keeps_keys(rest, pred);
        let sub = rest.filter(pred);
        assert forall|k: Seq<char>| has_key(sub, k) implies has_key(entries, k) by {
            assert(has_key(rest, k));
            let i = choose|i: int| 0 <= i < rest.len() && #[trigger] rest[i].key@ == k;
            assert(entries[i].key@ == k);
        }
        if pred(entries.last()) {
            let f = sub.push(entries.last());
            assert(!has_key(sub, entries.last().key@)) by {
                if has_key(sub, entries.last().key@) {
                    assert(has_key(rest, entries.last().key@));
                    let i = choose|i: int| 0 <= i < rest.len() && #[trigger] rest[i].key@ == entries.last().key@;
                    assert(entries[i].key@ == entries[entries.len() - 1].key@);
                }
            }
            assert forall|i: int, j: int| 0 <= i < j < f.len() implies #[trigger] f[i].key@ != #[trigger] f[j].key@ by {
                if j == f.len() - 1 {
                    assert(f[i] == sub[i]);
                    assert(f[j] == entries.last());
                } else {
                    assert(f[i] == sub[i] && f[j] == sub[j]);
                }
            }
            assert forall|k: Seq<char>| has_key(f, k) implies has_key(entries, k) by {
                let i = choose|i: int| 0 <= i < f.len() && #[trigger] f[i].key@ == k;
                if i == f.len() - 1 {
                    assert(entries[entries.len() - 1].key@ == k);
                } else {
                    assert(f[i] == sub[i]);
                    assert(has_key(sub, k));
                }
            }
        }
    }
}

/// Pruning keeps every entry that is still fresh: a path reserved or
/// submitted within its time to live stays recorded, so `recently_submitted`
/// reports it and `try_reserve` refuses it.
pub proof fn lemma_fresh_entry_survives_pruning(entries: Seq<PathEntry>, ttl_nanos: u128, now: u128, i: int)
    requires
        0 <= i < entries.len(),
        still_fresh(entries[i].state, ttl_nanos, now),
    ensures
        has_key(pruned(entries, ttl_nanos, now), entries[i].key@),
{
    let pred = |e: PathEntry| still_fresh(e.state, ttl_nanos, now);
    entries.lemma_filter_contains(pred, i);
    let p = entries.filter(pred);
    assert(p.contains(entries[i]));
    let j = choose|j: int| 0 <= j < p.len() && p[j] == entries[i];
    assert(p[j].key@ == entries[i].key@);
}

/// A path with no entry (as `release` leaves it) is free: pruning finds no
/// entry for it, so `recently_submitted` answers false, and a reservation
/// of it at any time is granted and recorded.
pub proof fn lemma_absent_path_is_free(
    entries: Seq<PathEntry>,
    ttl_nanos: u128,
    key: String,
    now: u128,
    r: bool,
    after: Seq<PathEntry>,
)
    requires
        keys_unique(entries),
        !has_key(entries, key@),
        reserve_outcome(entries, ttl_nanos, key, now, r, after),
    ensures
        !has_key(pruned(entries, ttl_nanos, now), key@),
        r,
        has_key(after, key@),
{
    lemma_filter_keeps_keys(entries, |e: PathEntry| still_fresh(e.state, ttl_nanos, now));
    let p = pruned(entries, ttl_nanos, now);
    assert(after[p.len() as int].key@ == key@);
}

impl SubmittedPathCache {
    /// The recorded paths.
    pub closed spec fn entries(&self) -> Seq<PathEntry> {
        self.entries@
    }

    /// Time-to-live of a submitted path, in nanoseconds.
    pub closed spec fn ttl_nanos(&self) -> u128 {
        self.ttl_nanos
    }

    /// One entry per key.
    pub open spec fn well_formed(&self) -> bool {
        keys_unique(self.entries())
    }

    /// An empty cache whose submissions live `ttl_nanos` nanoseconds (a
    /// `Duration` to the nanosecond, as `Duration::as_nanos` gives it).
    pub fn new(ttl_nanos: u128) -> (r: Self)
        ensures
            r.well_formed(),
            r.entries().len() == 0,
            r.ttl_nanos() == ttl_nanos,
    {
        SubmittedPathCache { ttl_nanos, epoch: instant_now(), entries: Vec::new() }
    }

    /// Drop the entries that are no longer fresh at `now_ns`.
    pub fn prune_at(&mut self, now_ns: u128)
        requires
            old(self).well_formed(),
        ensures
            final(self).well_formed(),
            final(self).entries() == pruned(old(self).entries(), old(self).ttl_nanos(), now_ns),
            final(self).ttl_nanos() == old(self).ttl_nanos(),
    {
        let ghost pred = |e: PathEntry| still_fresh(e.state, self.ttl_nanos, now_ns);
        let ghost before = self.entries@;
        let mut kept: Vec<PathEntry> = Vec::new();
        let mut i: usize = 0;
        while i < self.entries.len()
            invariant
                self.entries@ == before,
                i <= before.len(),
                kept@ == before.take(i as int).filter(pred),
                pred == (|e: PathEntry| still_fresh(e.state, self.ttl_nanos, now_ns)),
            decreases self.entries.len() - i,
        {
            let e = &self.entries[i];
            proof {
                reveal(Seq::filter);
                assert(before.take(i + 1).drop_last() =~= before.take(i as int));
            }
            if entry_fresh(e, self.ttl_nanos, now_ns) {
                kept.push(PathEntry { key: e.key.clone(), state: e.state });
            }
            i = i + 1;
        }
        proof {
            assert(before.take(i as int) =~= before);
            lemma_filter_keeps_keys(before, pred);
        }
        self.entries = kept;
    }

    /// Drop the entries that are no longer fresh on the clock.
    pub fn prune_expired(&mut self)
        requires
            old(self).well_formed(),
        ensures
            final(self).well_formed(),
            exists|now: u128|
                #![trigger pruned(old(self).entries(), old(self).ttl_nanos(), now)]
                final(self).entries() == pruned(old(self).entries(), old(self).ttl_nanos(), now),
            final(self).ttl_nanos() == old(self).ttl_nanos(),
    {
        let now = clock_nanos(&self.epoch);
        self.prune_at(now);
    }

    /// Position of the entry with key `k`.
    fn position(&self, k: &str) -> (r: Option<usize>)
        ensures
            r matches Some(i) ==> i < self.entries().len() && self.entries()[i as int].key@ == k@,
            r is None ==> !has_key(self.entries(), k@),
    {
        let mut i: usize = 0;
        while i < self.entries.len()
            invariant
                i <= self.entries@.len(),
                forall|j: int| 0 <= j < i ==> self.entries@[j].key@ != k@,
            decreases self.entries.len() - i,
        {
            if str_eq(self.entries[i].key.as_str(), k) {
                return Some(i);
            }
            i = i + 1;
        }
        None
    }

    /// Whether this path was submitted or reserved recently (pruning the
    /// stale entries first).
    pub fn recently_submitted(&mut self, path_key: &str) -> (r: bool)
        requires
            old(self).well_formed(),
        ensures
            final(self).well_formed(),
            exists|now: u128|
                #![trigger pruned(old(self).entries(), old(self).ttl_nanos(), now)]
                final(self).entries() == pruned(old(self).entries(), old(self).ttl_nanos(), now),
            final(self).ttl_nanos() == old(self).ttl_nanos(),
            r == has_key(final(self).entries(), path_key@),
    {
        self.prune_expired();
        self.position(path_key).is_some()
    }

    /// Reserve a path for one execution attempt at `now_ns`: the stale
    /// entries are dropped; refused (false) when a fresh entry holds the
    /// path, else it is recorded as reserved at `now_ns`.
    pub fn try_reserve_at(&mut self, path_key: String, now_ns: u128) -> (r: bool)
        requires
            old(self).well_formed(),
        ensures
            final(self).well_formed(),
            final(self).ttl_nanos() == old(self).ttl_nanos(),
            reserve_outcome(old(self).entries(), old(self).ttl_nanos(), path_key, now_ns, r, final(self).entries()),
            r ==> has_key(final(self).entries(), path_key@),
    {
        self.prune_at(now_ns);
        if self.position(path_key.as_str()).is_some() {
            return false;
        }
        let ghost p = self.entries@;
        let ghost k = path_key@;
        let ghost entry = PathEntry { key: path_key, state: PathState::Reserved(now_ns) };
        self.entries.push(PathEntry { key: path_key, state: PathState::Reserved(now_ns) });
        proof {
            assert(self.entries@ =~= p.push(entry));
            let last = self.entries@.len() - 1;
            assert(self.entries@[last].key@ == k);
            assert forall|i: int, j: int| 0 <= i < j < self.entries@.len() implies #[trigger] self.entries@[i].key@
                != #[trigger] self.entries@[j].key@ by {
                if j == last {
                    assert(self.entries@[i] == p[i]);
                } else {
                    assert(self.entries@[i] == p[i] && self.entries@[j] == p[j]);
                }
            }
        }
        true
    }

    /// Reserve a path for one execution attempt at the time on the clock.
    pub fn try_reserve(&mut self, path_key: String) -> (r: bool)
        requires
            old(self).well_formed(),
        ensures
            final(self).well_formed(),
            final(self).ttl_nanos() == old(self).ttl_nanos(),
            exists|now_ns: u128|
                #[trigger] reserve_outcome(old(self).entries(), old(self).ttl_nanos(), path_key, now_ns, r, final(self).entries()),
            r ==> has_key(final(self).entries(), path_key@),
    {
        let now = clock_nanos(&self.epoch);
        self.try_reserve_at(path_key, now)
    }

    /// Release a reservation when no transaction was broadcast: the entry for
    /// the path, if any, goes.
    pub fn release(&mut self, path_key: &str)
        requires
            old(self).well_formed(),
        ensures
            final(self).well_formed(),
            final(self).ttl_nanos() == old(self).ttl_nanos(),
            !has_key(final(self).entries(), path_key@),
            has_key(old(self).entries(), path_key@) ==> exists|i: int|
                0 <= i < old(self).entries().len() && final(self).entries() == old(self).entries().remove(i),
            !has_key(old(self).entries(), path_key@) ==> final(self).entries() == old(self).entries(),
    {
        match self.position(path_key) {
            Some(i) => {
                let ghost before = self.entries@;
                self.entries.remove(i);
                proof {
                    let after = self.entries@;
                    assert(after =~= before.remove(i as int));
                    assert forall|a: int, b: int| 0 <= a < b < after.len() implies #[trigger] after[a].key@
                        != #[trigger] after[b].key@ by {
                        let a0 = if a < i { a } else { a + 1 };
                        let b0 = if b < i { b } else { b + 1 };
                        assert(after[a] == before[a0] && after[b] == before[b0]);
                    }
                    assert(!has_key(after, path_key@)) by {
                        if has_key(after, path_key@) {
                            let j = choose|j: int| 0 <= j < after.len() && #[trigger] after[j].key@ == path_key@;
                            let j0 = if j < i { j } else { j + 1 };
                            assert(after[j] == before[j0]);
                            if j0 < i {
                                assert(before[j0].key@ != before[i as int].key@);
                            } else {
                                assert(before[i as int].key@ != before[j0].key@);
                            }
                        }
                    }
                }
            },
            None => {},
        }
    }

    /// Record a path as submitted at `now_ns`: the stale entries are
    /// dropped; an entry it had is replaced in place, else one is added at
    /// the end.
    pub fn mark_submitted_at(&mut self, path_key: String, now_ns: u128)
        requires
            old(self).well_formed(),
        ensures
            final(self).well_formed(),
            final(self).ttl_nanos() == old(self).ttl_nanos(),
            submit_outcome(old(self).entries(), old(self).ttl_nanos(), path_key, now_ns, final(self).entries()),
            has_key(final(self).entries(), path_key@),
    {
        self.prune_at(now_ns);
        let ghost p = self.entries@;
        let ghost k = path_key@;
        let ghost entry = PathEntry { key: path_key, state: PathState::Submitted(now_ns) };
        match self.position(path_key.as_str()) {
            Some(i) => {
                self.entries.set(i, PathEntry { key: path_key, state: PathState::Submitted(now_ns) });
                proof {
                    let after = self.entries@;
                    assert(after =~= p.update(i as int, entry));
                    assert(p[i as int].key@ == k);
                    assert forall|a: int, b: int| 0 <= a < b < after.len() implies #[trigger] after[a].key@
                        != #[trigger] after[b].key@ by {
                        if a != i && b != i {
                            assert(after[a] == p[a] && after[b] == p[b]);
                        } else if a == i {
                            assert(after[b] == p[b]);
                        } else {
                            assert(after[a] == p[a]);
                        }
                    }
                    assert(after[i as int].key@ == k);
                    assert forall|c: Seq<char>| c != k implies (has_key(after, c) <==> has_key(p, c)) by {
                        if has_key(after, c) {
                            let j = choose|j: int| 0 <= j < after.len() && #[trigger] after[j].key@ == c;
                            assert(after[j] == p[j]);
                        }
                        if has_key(p, c) {
                            let j = choose|j: int| 0 <= j < p.len() && #[trigger] p[j].key@ == c;
                            assert(after[j] == p[j]);
                        }
                    }
                    assert forall|j: int| 0 <= j < after.len() && #[trigger] after[j].key@ == k implies after[j].state is Submitted by {
                        if j != i {
                            assert(after[j] == p[j]);
                            if j < i {
                                assert(p[j].key@ != p[i as int].key@);
                            } else {
                                assert(p[i as int].key@ != p[j].key@);
                            }
                        }
                    }
                }
            },
            None => {
                self.entries.push(PathEntry { key: path_key, state: PathState::Submitted(now_ns) });
                proof {
                    let after = self.entries@;
                    assert(after =~= p.push(entry));
                    let last = after.len() - 1;
                    assert(after[last].key@ == k);
                    assert forall|a: int, b: int| 0 <= a < b < after.len() implies #[trigger] after[a].key@
                        != #[trigger] after[b].key@ by {
                        if b == last {
                            assert(after[a] == p[a]);
                        } else {
                            assert(after[a] == p[a] && after[b] == p[b]);
                        }
                    }
                    assert forall|c: Seq<char>| c != k implies (has_key(after, c) <==> has_key(p, c)) by {
                        if has_key(after, c) {
                            let j = choose|j: int| 0 <= j < after.len() && #[trigger] after[j].key@ == c;
                            assert(after[j] == p[j]);
                        }
                        if has_key(p, c) {
                            let j = choose|j: int| 0 <= j < p.len() && #[trigger] p[j].key@ == c;
                            assert(after[j] == p[j]);
                        }
                    }
                    assert forall|j: int| 0 <= j < after.len() && #[trigger] after[j].key@ == k implies after[j].state is Submitted by {
                        if j != last {
                            assert(after[j] == p[j]);
                        }
                    }
                }
            },
        }
    }

    /// Record a path as submitted at the time on the clock.
    pub fn mark_submitted(&mut self, path_key: String)
        requires
            old(self).well_formed(),
        ensures
            final(self).well_formed(),
            final(self).ttl_nanos() == old(self).ttl_nanos(),
            exists|now_ns: u128|
                #[trigger] submit_outcome(old(self).entries(), old(self).ttl_nanos(), path_key, now_ns, final(self).entries()),
            has_key(final(self).entries(), path_key@),
    {
        let now = clock_nanos(&self.epoch);
        self.mark_submitted_at(path_key, now)
    }
}

/// Whether `e` is still fresh at `now_ns`.
fn entry_fresh(e: &PathEntry, ttl_nanos: u128, now_ns: u128) -> (r: bool)
    ensures
        r == still_fresh(e.state, ttl_nanos, now_ns),
{
    let (t, limit) = match e.state {
        PathState::Reserved(t) => (t, RESERVATION_TTL_NANOS),
        PathState::Submitted(t) => (t, ttl_nanos),
    };
    let age: u128 = if now_ns >= t {
        now_ns - t
    } else {
        0
    };
    age < limit
}

/// The dedup key of a pool path: the pool addresses joined with `|`.
pub fn path_dedup_key(pool_addresses: &[String]) -> (r: String)
    ensures
        r@ == joined(pool_addresses@.map_values(|p: String| p@), "|"@),
{
    join_strings(pool_addresses, "|")
}

/// The key of one sub-order: its sources joined with `,`, then `:`, then its
/// pools joined with `>`.
pub open spec fn sub_order_key(s: SubOrder) -> Seq<char> {
    joined(s.sources@.map_values(|x: String| x@), ","@) + ":"@ + joined(
        s.pool_addresses@.map_values(|x: String| x@),
        ">"@,
    )
}

/// The key of a leg: its sub-order keys joined with `||`.
pub open spec fn leg_key(leg: LegQuote) -> Seq<char> {
    joined(leg.sub_orders@.map_values(|s: SubOrder| sub_order_key(s)), "||"@)
}

fn sub_order_key_of(s: &SubOrder) -> (r: String)
    ensures
        r@ == sub_order_key(*s),
{
    let mut r = join_strings(s.sources.as_slice(), ",");
    r.append(":");
    let pools = join_strings(s.pool_addresses.as_slice(), ">");
    r.append(pools.as_str());
    r
}

fn leg_key_of(leg: &LegQuote) -> (r: String)
    ensures
        r@ == leg_key(*leg),
{
    let ghost subs = leg.sub_orders@;
    let mut keys: Vec<String> = Vec::new();
    let mut i: usize = 0;
    while i < leg.sub_orders.len()
        invariant
            i <= subs.len(),
            subs == leg.sub_orders@,
            keys@.map_values(|k: String| k@) == subs.take(i as int).map_values(|s: SubOrder| sub_order_key(s)),
        decreases leg.sub_orders.len() - i,
    {
        let k = sub_order_key_of(&leg.sub_orders[i]);
        let ghost before = keys@.map_values(|k: String| k@);
        keys.push(k);
        proof {
            assert(keys@.map_values(|k: String| k@) =~= before.push(sub_order_key(subs[i as int])));
            assert(subs.take(i + 1).map_values(|s: SubOrder| sub_order_key(s)) =~= subs.take(i as int).map_values(
                |s: SubOrder| sub_order_key(s),
            ).push(sub_order_key(subs[i as int])));
        }
        i = i + 1;
    }
    proof {
        assert(subs.take(subs.len() as int) =~= subs);
    }
    join_strings(keys.as_slice(), "||")
}

/// The dedup key of a round trip: the exact out- and back-leg routes, so
/// that two routes that share a pool do not hold each other back.
pub fn round_trip_dedup_key(quote: &RoundTripQuote) -> (r: String)
    ensures
        r@ == quote.base@ + "|"@ + leg_key(quote.leg_out) + "|"@ + leg_key(quote.leg_back),
{
    let mut r = quote.base.clone();
    r.append("|");
    let out_key = leg_key_of(&quote.leg_out);
    r.append(out_key.as_str());
    r.append("|");
    let back_key = leg_key_of(&quote.leg_back);
    r.append(back_key.as_str());
    r
}

/// Before executing an opportunity: when submitting, reserve its path —
/// `Some(true)` when reserved, `None` (the opportunity is skipped) when a
/// fresh entry already holds it; without submitting nothing is reserved
/// (`Some(false)`).
pub fn reserve_for_execution(cache: &mut SubmittedPathCache, path_key: String, submitting: bool) -> (r: Option<bool>)
    requires
        old(cache).well_formed(),
    ensures
        final(cache).well_formed(),
        !submitting ==> r == Some(false) && *final(cache) == *old(cache),
        submitting ==> (r == Some(true) || r is None),
        r == Some(true) ==> has_key(final(cache).entries(), path_key@),
{
    if !submitting {
        return Some(false);
    }
    if cache.try_reserve(path_key) {
        Some(true)
    } else {
        None
    }
}

/// After executing an opportunity whose path was reserved: a broadcast
/// transaction marks the path submitted, anything else releases it.
pub fn settle_execution(cache: &mut SubmittedPathCache, path_key: String, reserved: bool, broadcast: bool)
    requires
        old(cache).well_formed(),
    ensures
        final(cache).well_formed(),
        !reserved ==> *final(cache) == *old(cache),
        reserved && broadcast ==> has_key(final(cache).entries(), path_key@),
        reserved && !broadcast ==> !has_key(final(cache).entries(), path_key@),
{
    if !reserved {
        return;
    }
    if broadcast {
        cache.mark_submitted(path_key);
    } else {
        cache.release(path_key.as_str());
    }
}

} // verus!
