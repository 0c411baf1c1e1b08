//! The scan pipeline's messages: the base/bridge pairs handed to the quote
//! workers, one cycle at a time, and the opportunities handed on to be
//! executed.

use vstd::prelude::*;

use crate::scanner::ArbOpportunity;
use crate::stats::{wrap_inc, ArbStats};
use crate::text::str_eq;

verus! {

/// One base×bridge pair to quote.
#[derive(Debug, Clone)]
pub struct BridgeScanItem {
    pub base: String,
    pub bridge: String,
}

/// What the collector hands to the strategy.
#[derive(Debug, Clone)]
pub enum Event {
    BridgeScan(BridgeScanItem),
}

/// What the strategy hands to the executor.
#[derive(Debug, Clone)]
pub enum Action {
    ExecuteOpportunity(ArbOpportunity),
}

/// The pairs of one base with each bridge, in bridge order, a bridge equal
/// to the base left out.
pub open spec fn base_pairs(base: Seq<char>, bridges: Seq<Seq<char>>) -> Seq<(Seq<char>, Seq<char>)>
    decreases bridges.len(),
{
    if bridges.len() == 0 {
        seq![]
    } else {
        let rest = base_pairs(base, bridges.drop_last());
        if bridges.last() == base {
            rest
        } else {
            rest.push((base, bridges.last()))
        }
    }
}

/// The pairs of one scan cycle: each base in order with each bridge.
pub open spec fn cycle_pairs(bases: Seq<Seq<char>>, bridges: Seq<Seq<char>>) -> Seq<(Seq<char>, Seq<char>)>
    decreases bases.len(),
{
    if bases.len() == 0 {
        seq![]
    } else {
        cycle_pairs(bases.drop_last(), bridges) + base_pairs(bases.last(), bridges)
    }
}

/// The pairs of an item list.
pub open spec fn item_pairs(items: Seq<BridgeScanItem>) -> Seq<(Seq<char>, Seq<char>)> {
    items.map_values(|it: BridgeScanItem| (it.base@, it.bridge@))
}

/// The items of one scan cycle, in the order they are handed out: each base
/// with each bridge that differs from it.
pub fn scan_cycle_items(bases: &Vec<String>, bridges: &Vec<String>) -> (r: Vec<BridgeScanItem>)
    ensures
        item_pairs(r@) == cycle_pairs(bases.deep_view(), bridges.deep_view()),
{
    let ghost bs = bases.deep_view();
    let ghost rs = bridges.deep_view();
    let mut items: Vec<BridgeScanItem> = Vec::new();
    let mut i: usize = 0;
    while i < bases.len()
        invariant
            i <= bs.len(),
            bs == bases.deep_view(),
            rs == bridges.deep_view(),
            item_pairs(items@) == cycle_pairs(bs.take(i as int), rs),
        decreases bases.len() - i,
    {
        let base = &bases[i];
        let ghost done = item_pairs(items@);
        let mut j: usize = 0;
        while j < bridges.len()
            invariant
                j <= rs.len(),
                rs == bridges.deep_view(),
                base@ == bs[i as int],
                item_pairs(items@) == done + base_pairs(base@, rs.take(j as int)),
            decreases bridges.len() - j,
        {
            let bridge = &bridges[j];
            proof {
                assert(rs.take(j + 1).drop_last() =~= rs.take(j as int));
                assert(rs.take(j + 1).last() == bridge@);
            }
            if !str_eq(bridge.as_str(), base.as_str()) {
                let ghost before = items@;
                items.push(BridgeScanItem { base: base.clone(), bridge: bridge.clone() });
                proof {
                    assert(item_pairs(items@) =~= item_pairs(before).push((base@, bridge@)));
                }
            }
            j = j + 1;
        }
        proof {
            assert(rs.take(rs.len() as int) =~= rs);
            assert(bs.take(i + 1).drop_last() =~= bs.take(i as int));
            assert(bs.take(i + 1).last() == bs[i as int]);
        }
        i = i + 1;
    }
    proof {
        assert(bs.take(bs.len() as int) =~= bs);
    }
    items
}

/// Count one pair handed out for quoting.
pub fn record_route_evaluated(stats: &mut ArbStats)
    ensures
        *final(stats) == (ArbStats { routes_evaluated: wrap_inc(old(stats).routes_evaluated), ..*old(stats) }),
{
    stats.routes_evaluated = stats.routes_evaluated.wrapping_add(1);
}

} // verus!
