//! Map on-chain contract IDs to `(source, pool_address)` for ledger event
//! ingestion.

use vstd::prelude::*;

use crate::text::str_eq;
use crate::utils::{contract_address, contract_address_text, is_contract_address};

verus! {

/// A pool and the source that quotes it.
#[derive(Debug, Clone, PartialEq, Eq, Hash)]
pub struct PoolRef {
    pub source: String,
    pub pool_address: String,
}

/// Known pools by contract address, one entry per address.
#[derive(Debug, Clone)]
pub struct KnownPoolIndex {
    by_contract: Vec<PoolRef>,
}

impl KnownPoolIndex {
    /// The indexed pools.
    pub closed spec fn pools(&self) -> Seq<PoolRef> {
        self.by_contract@
    }

    /// One entry per contract address, and only contract addresses.
    pub open spec fn well_formed(&self) -> bool {
        &&& forall|i: int, j: int|
            0 <= i < j < self.pools().len() ==> #[trigger] self.pools()[i].pool_address@
                != #[trigger] self.pools()[j].pool_address@
        &&& forall|i: int| 0 <= i < self.pools().len() ==> contract_address_text(#[trigger] self.pools()[i].pool_address@)
    }

    /// An empty index.
    pub fn new() -> (r: Self)
        ensures
            r.well_formed(),
            r.pools().len() == 0,
    {
        KnownPoolIndex { by_contract: Vec::new() }
    }

    fn position(&self, contract_id: &str) -> (r: Option<usize>)
        ensures
            r matches Some(i) ==> i < self.pools().len() && self.pools()[i as int].pool_address@ == contract_id@,
            r is None ==> forall|j: int| 0 <= j < self.pools().len() ==> #[trigger] self.pools()[j].pool_address@ != contract_id@,
    {
        let mut i: usize = 0;
        while i < self.by_contract.len()
            invariant
                i <= self.pools().len(),
                forall|j: int| 0 <= j < i ==> #[trigger] self.pools()[j].pool_address@ != contract_id@,
            decreases self.by_contract.len() - i,
        {
            if str_eq(self.by_contract[i].pool_address.as_str(), contract_id) {
                return Some(i);
            }
            i = i + 1;
        }
        None
    }

    /// Index a pool under its address when that is a contract address; an
    /// entry for the same address is replaced, others stay.
    pub fn insert(&mut self, source: &str, pool_address: &str)
        requires
            old(self).well_formed(),
        ensures
            final(self).well_formed(),
            !contract_address(pool_address) ==> final(self).pools() == old(self).pools(),
            contract_address(pool_address) ==> exists|p: int|
                0 <= p < final(self).pools().len() && #[trigger] final(self).pools()[p].pool_address@ == pool_address@
                    && final(self).pools()[p].source@ == source@ && (forall|j: int|
                    0 <= j < final(self).pools().len() && j != p ==> #[trigger] final(self).pools()[j]
                        == old(self).pools()[j]) && ((final(self).pools().len() == old(self).pools().len()
                    && old(self).pools()[p].pool_address@ == pool_address@) || (final(self).pools().len()
                    == old(self).pools().len() + 1 && p == old(self).pools().len())),
    {
        if !is_contract_address(pool_address) {
            return;
        }
        let entry = PoolRef { source: source.to_owned(), pool_address: pool_address.to_owned() };
        let ghost before = self.pools();
        match self.position(pool_address) {
            Some(i) => {
                self.by_contract.set(i, entry);
                proof {
                    let after = self.pools();
                    assert forall|a: int, b: int| 0 <= a < b < after.len() implies #[trigger] after[a].pool_address@
                        != #[trigger] after[b].pool_address@ by {
                        if a != i && b != i {
                            assert(after[a] == before[a] && after[b] == before[b]);
                        } else if a == i {
                            assert(after[b] == before[b]);
                            assert(before[i as int].pool_address@ != before[b].pool_address@);
                        } else {
                            assert(after[a] == before[a]);
                            assert(before[a].pool_address@ != before[i as int].pool_address@);
                        }
                    }
                    assert forall|a: int| 0 <= a < after.len() implies contract_address_text(
                        #[trigger] after[a].pool_address@,
                    ) by {
                        if a != i {
                            assert(after[a] == before[a]);
                        }
                    }
                    assert(forall|j: int| 0 <= j < after.len() && j != i ==> #[trigger] after[j] == before[j]);
                    assert(after[i as int].pool_address@ == pool_address@ && after[i as int].source@ == source@);
                    assert(after.len() == before.len() && before[i as int].pool_address@ == pool_address@);
                }
            },
            None => {
                self.by_contract.push(entry);
                proof {
                    let after = self.pools();
                    let last = after.len() - 1;
                    assert forall|a: int, b: int| 0 <= a < b < after.len() implies #[trigger] after[a].pool_address@
                        != #[trigger] after[b].pool_address@ by {
                        if b == last {
                            assert(after[a] == before[a]);
                            assert(before[a].pool_address@ != pool_address@);
                        } else {
                            assert(after[a] == before[a] && after[b] == before[b]);
                        }
                    }
                    assert forall|a: int| 0 <= a < after.len() implies contract_address_text(
                        #[trigger] after[a].pool_address@,
                    ) by {
                        if a != last {
                            assert(after[a] == before[a]);
                        }
                    }
                    assert(forall|j: int| 0 <= j < after.len() && j != last ==> #[trigger] after[j] == before[j]);
                    assert(after[last].pool_address@ == pool_address@ && after[last].source@ == source@);
                }
            },
        }
    }

    /// How many pools are indexed.
    pub fn len(&self) -> (r: usize)
        ensures
            r == self.pools().len(),
    {
        self.by_contract.len()
    }

    /// The pool indexed under `contract_id`.
    pub fn lookup_contract(&self, contract_id: &str) -> (r: Option<&PoolRef>)
        ensures
            r matches Some(p) ==> exists|i: int|
                0 <= i < self.pools().len() && #[trigger] self.pools()[i] == *p && p.pool_address@ == contract_id@,
            r is None ==> forall|i: int|
                0 <= i < self.pools().len() ==> #[trigger] self.pools()[i].pool_address@ != contract_id@,
    {
        match self.position(contract_id) {
            Some(i) => Some(&self.by_contract[i]),
            None => None,
        }
    }
}

/// A contract event of a ledger range, as the index reads it: its type, the
/// contract that emitted it, and the pool ids that a router event carries in
/// its body (decoded by the caller; empty for other events).
#[derive(Debug, Clone)]
pub struct ContractEvent {
    pub event_type: String,
    pub contract_id: String,
    pub router_pools: Vec<String>,
}

/// Some pool of `pools` has the address `addr`.
pub open spec fn has_pool_address(pools: Seq<PoolRef>, addr: Seq<char>) -> bool {
    exists|i: int| 0 <= i < pools.len() && #[trigger] pools[i].pool_address@ == addr
}

/// A router event names the pool `addr` in its body.
pub open spec fn router_carries(e: ContractEvent, addr: Seq<char>) -> bool {
    exists|k: int| 0 <= k < e.router_pools@.len() && #[trigger] e.router_pools@[k]@ == addr
}

/// A contract event touches a pool: an event of a known pool touches that
/// pool; another event touches the pools that its body names.
pub open spec fn event_touches(pools: Seq<PoolRef>, e: ContractEvent, addr: Seq<char>) -> bool {
    &&& e.event_type@ == "contract"@
    &&& if has_pool_address(pools, e.contract_id@) {
        e.contract_id@ == addr
    } else {
        router_carries(e, addr)
    }
}

/// Some event of the range touches the pool `addr`.
pub open spec fn touched_by(pools: Seq<PoolRef>, events: Seq<ContractEvent>, addr: Seq<char>) -> bool {
    exists|n: int| 0 <= n < events.len() && event_touches(pools, #[trigger] events[n], addr)
}

/// Pools of `pools`, each once by address.
pub open spec fn touched_well_formed(pools: Seq<PoolRef>, touched: Seq<PoolRef>) -> bool {
    &&& forall|i: int| 0 <= i < touched.len() ==> #[trigger] pools.contains(touched[i])
    &&& forall|a: int, b: int|
        0 <= a < b < touched.len() ==> #[trigger] touched[a].pool_address@ != #[trigger] touched[b].pool_address@
}

fn copy_pool(p: &PoolRef) -> (r: PoolRef)
    ensures
        r == *p,
{
    PoolRef { source: p.source.clone(), pool_address: p.pool_address.clone() }
}

fn add_pool(touched: &mut Vec<PoolRef>, p: &PoolRef, Ghost(pools): Ghost<Seq<PoolRef>>)
    requires
        pools.contains(*p),
        forall|i: int, j: int|
            0 <= i < j < pools.len() ==> #[trigger] pools[i].pool_address@ != #[trigger] pools[j].pool_address@,
        touched_well_formed(pools, old(touched)@),
    ensures
        touched_well_formed(pools, final(touched)@),
        forall|q: PoolRef| final(touched)@.contains(q) <==> (old(touched)@.contains(q) || q == *p),
{
    let mut i: usize = 0;
    while i < touched.len()
        invariant
            i <= touched@.len(),
            touched@ == old(touched)@,
            pools.contains(*p),
            forall|i: int, j: int|
                0 <= i < j < pools.len() ==> #[trigger] pools[i].pool_address@ != #[trigger] pools[j].pool_address@,
            touched_well_formed(pools, touched@),
            forall|k: int| 0 <= k < i ==> #[trigger] touched@[k].pool_address@ != p.pool_address@,
        decreases touched.len() - i,
    {
        if str_eq(touched[i].pool_address.as_str(), p.pool_address.as_str()) {
            proof {
                let t = touched@[i as int];
                assert(pools.contains(t));
                let a = choose|a: int| 0 <= a < pools.len() && pools[a] == t;
                let b = choose|b: int| 0 <= b < pools.len() && pools[b] == *p;
                if a < b {
                    assert(pools[a].pool_address@ != pools[b].pool_address@);
                } else if b < a {
                    assert(pools[b].pool_address@ != pools[a].pool_address@);
                }
                assert(t == *p);
            }
            return;
        }
        i = i + 1;
    }
    let ghost before = touched@;
    touched.push(copy_pool(p));
    proof {
        let after = touched@;
        assert forall|a: int, b: int| 0 <= a < b < after.len() implies #[trigger] after[a].pool_address@
            != #[trigger] after[b].pool_address@ by {
            if b < before.len() {
                assert(after[a] == before[a] && after[b] == before[b]);
            } else {
                assert(after[a] == before[a]);
            }
        }
        assert forall|k: int| 0 <= k < after.len() implies #[trigger] pools.contains(after[k]) by {
            if k < before.len() {
                assert(after[k] == before[k]);
            }
        }
        assert forall|q: PoolRef| after.contains(q) <==> (before.contains(q) || q == *p) by {
            if after.contains(q) {
                let k = choose|k: int| 0 <= k < after.len() && after[k] == q;
                if k < before.len() {
                    assert(before[k] == q);
                }
            }
            if before.contains(q) {
                let k = choose|k: int| 0 <= k < before.len() && before[k] == q;
                assert(after[k] == q);
            }
            if q == *p {
                assert(after[before.len() as int] == q);
            }
        }
    }
}

proof fn lemma_touched_by_step(pools: Seq<PoolRef>, events: Seq<ContractEvent>, n: int, addr: Seq<char>)
    requires
        0 <= n < events.len(),
    ensures
        touched_by(pools, events.take(n + 1), addr) <==> (touched_by(pools, events.take(n), addr) || event_touches(
            pools,
            events[n],
            addr,
        )),
{
    if touched_by(pools, events.take(n + 1), addr) {
        let m = choose|m: int| 0 <= m < n + 1 && event_touches(pools, #[trigger] events.take(n + 1)[m], addr);
        if m < n {
            assert(events.take(n)[m] == events.take(n + 1)[m]);
        }
    }
    if touched_by(pools, events.take(n), addr) {
        let m = choose|m: int| 0 <= m < n && event_touches(pools, #[trigger] events.take(n)[m], addr);
        assert(events.take(n + 1)[m] == events.take(n)[m]);
    }
    if event_touches(pools, events[n], addr) {
        assert(events.take(n + 1)[n] == events[n]);
    }
}

/// The pools that the events of a ledger range touch, each once: a contract
/// event of a known pool touches that pool, and another contract event (a
/// router's) touches the known pools that its body names. Events of other
/// types touch nothing.
pub fn touched_pools_from_events(events: &[ContractEvent], index: &KnownPoolIndex) -> (r: Vec<PoolRef>)
    requires
        index.well_formed(),
    ensures
        touched_well_formed(index.pools(), r@),
        forall|j: int|
            0 <= j < index.pools().len() ==> (r@.contains(#[trigger] index.pools()[j]) <==> touched_by(
                index.pools(),
                events@,
                index.pools()[j].pool_address@,
            )),
{
    let ghost pools = index.pools();
    let mut touched: Vec<PoolRef> = Vec::new();
    let mut n: usize = 0;
    while n < events.len()
        invariant
            n <= events@.len(),
            index.well_formed(),
            pools == index.pools(),
            touched_well_formed(pools, touched@),
            forall|j: int|
                0 <= j < pools.len() ==> (touched@.contains(#[trigger] pools[j]) <==> touched_by(
                    pools,
                    events@.take(n as int),
                    pools[j].pool_address@,
                )),
        decreases events.len() - n,
    {
        let e = &events[n];
        let ghost before = touched@;
        proof {
            assert forall|j: int| 0 <= j < pools.len() implies touched_by(
                pools,
                events@.take(n + 1),
                #[trigger] pools[j].pool_address@,
            ) <==> (touched_by(pools, events@.take(n as int), pools[j].pool_address@) || event_touches(
                pools,
                events@[n as int],
                pools[j].pool_address@,
            )) by {
                lemma_touched_by_step(pools, events@, n as int, pools[j].pool_address@);
            }
        }
        if str_eq(e.event_type.as_str(), "contract") {
            match index.lookup_contract(e.contract_id.as_str()) {
                Some(p) => {
                    proof {
                        let i = choose|i: int| 0 <= i < pools.len() && #[trigger] pools[i] == *p;
                        assert(pools.contains(*p));
                        assert(has_pool_address(pools, e.contract_id@)) by {
                            assert(pools[i].pool_address@ == e.contract_id@);
                        }
                    }
                    add_pool(&mut touched, p, Ghost(pools));
                    proof {
                        assert forall|j: int| 0 <= j < pools.len() implies (touched@.contains(#[trigger] pools[j])
                            <==> touched_by(pools, events@.take(n + 1), pools[j].pool_address@)) by {
                            let i = choose|i: int| 0 <= i < pools.len() && #[trigger] pools[i] == *p;
                            if pools[j].pool_address@ == e.contract_id@ && i != j {
                                if i < j {
                                    assert(pools[i].pool_address@ != pools[j].pool_address@);
                                } else {
                                    assert(pools[j].pool_address@ != pools[i].pool_address@);
                                }
                            }
                        }
                    }
                },
                None => {
                    proof {
                        assert(!has_pool_address(pools, e.contract_id@));
                    }
                    let mut k: usize = 0;
                    while k < e.router_pools.len()
                        invariant
                            k <= e.router_pools@.len(),
                            index.well_formed(),
                            pools == index.pools(),
                            touched_well_formed(pools, touched@),
                            forall|j: int|
                                0 <= j < pools.len() ==> (touched@.contains(#[trigger] pools[j]) <==> (touched_by(
                                    pools,
                                    events@.take(n as int),
                                    pools[j].pool_address@,
                                ) || exists|kk: int|
                                    0 <= kk < k && #[trigger] e.router_pools@[kk]@ == pools[j].pool_address@)),
                        decreases e.router_pools.len() - k,
                    {
                        match index.lookup_contract(e.router_pools[k].as_str()) {
                            Some(p) => {
                                proof {
                                    assert(pools.contains(*p));
                                }
                                let ghost mid = touched@;
                                add_pool(&mut touched, p, Ghost(pools));
                                proof {
                                    assert forall|j: int| 0 <= j < pools.len() implies (touched@.contains(
                                        #[trigger] pools[j],
                                    ) <==> (touched_by(pools, events@.take(n as int), pools[j].pool_address@)
                                        || exists|kk: int|
                                        0 <= kk < k + 1 && #[trigger] e.router_pools@[kk]@
                                            == pools[j].pool_address@)) by {
                                        let i = choose|i: int| 0 <= i < pools.len() && #[trigger] pools[i] == *p;
                                        if pools[j].pool_address@ == e.router_pools@[k as int]@ && i != j {
                                            if i < j {
                                                assert(pools[i].pool_address@ != pools[j].pool_address@);
                                            } else {
                                                assert(pools[j].pool_address@ != pools[i].pool_address@);
                                            }
                                        }
                                        if pools[j] == *p {
                                            assert(e.router_pools@[k as int]@ == pools[j].pool_address@);
                                        }
                                        if exists|kk: int|
                                            0 <= kk < k + 1 && #[trigger] e.router_pools@[kk]@
                                                == pools[j].pool_address@ {
                                            let kk = choose|kk: int|
                                                0 <= kk < k + 1 && #[trigger] e.router_pools@[kk]@
                                                    == pools[j].pool_address@;
                                            if kk == k {
                                                assert(pools[i].pool_address@ == pools[j].pool_address@);
                                            }
                                        }
                                    }
                                }
                            },
                            None => {
                                proof {
                                    assert forall|j: int| 0 <= j < pools.len() implies (touched@.contains(
                                        #[trigger] pools[j],
                                    ) <==> (touched_by(pools, events@.take(n as int), pools[j].pool_address@)
                                        || exists|kk: int|
                                        0 <= kk < k + 1 && #[trigger] e.router_pools@[kk]@
                                            == pools[j].pool_address@)) by {
                                        if exists|kk: int|
                                            0 <= kk < k + 1 && #[trigger] e.router_pools@[kk]@
                                                == pools[j].pool_address@ {
                                            let kk = choose|kk: int|
                                                0 <= kk < k + 1 && #[trigger] e.router_pools@[kk]@
                                                    == pools[j].pool_address@;
                                            if kk == k {
                                                assert(pools[j].pool_address@ != e.router_pools@[k as int]@);
                                            }
                                        }
                                    }
                                }
                            },
                        }
                        k = k + 1;
                    }
                    proof {
                        assert forall|j: int| 0 <= j < pools.len() implies (touched@.contains(#[trigger] pools[j])
                            <==> touched_by(pools, events@.take(n + 1), pools[j].pool_address@)) by {
                            if router_carries(*e, pools[j].pool_address@) {
                                let kk = choose|kk: int|
                                    0 <= kk < e.router_pools@.len() && #[trigger] e.router_pools@[kk]@
                                        == pools[j].pool_address@;
                            }
                        }
                    }
                },
            }
        } else {
            proof {
                assert forall|j: int| 0 <= j < pools.len() implies (touched@.contains(#[trigger] pools[j])
                    <==> touched_by(pools, events@.take(n + 1), pools[j].pool_address@)) by {}
            }
        }
        n = n + 1;
    }
    proof {
        assert(events@.take(events@.len() as int) =~= events@);
    }
    touched
}

} // verus!
