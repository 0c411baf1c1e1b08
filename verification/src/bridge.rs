//! Two-leg round-trip quotes: how a quoted leg and a round trip are held, the
//! labels that name them, and how a split out-leg's back quotes combine.

use vstd::prelude::*;

use crate::invoke::ArbSwapStep;
use crate::text::{join_strings, joined, str_eq};
use vstd::string::StringExecFns;

verus! {

/// One sub-order of a quoted leg: the sources and pools of its path and the
/// output it is expected to give.
#[derive(Debug, Clone)]
pub struct SubOrder {
    pub sources: Vec<String>,
    pub pool_addresses: Vec<String>,
    pub amount_in: u128,
    pub expected_amount_out: u128,
}

/// One quoted leg: the router's sub-orders and totals, and the swap steps of
/// each sub-order.
#[derive(Debug, Clone)]
pub struct LegQuote {
    pub sub_orders: Vec<SubOrder>,
    pub total_amount_in: u128,
    pub total_expected_out: u128,
    pub is_split: bool,
    pub step_sets: Vec<Vec<ArbSwapStep>>,
    pub minimum_out: u128,
    pub snapshot_age_ms: Option<u64>,
    pub pool_state_age_ms: Option<u64>,
}

/// A base → bridge → base round trip at a fixed base input. Tokens are held
/// by their canonical identifiers.
#[derive(Debug, Clone)]
pub struct RoundTripQuote {
    pub base: String,
    pub bridge: String,
    pub amount_in: u128,
    pub amount_out: u128,
    /// Chain floor of the back leg.
    pub minimum_out: u128,
    pub leg_out: LegQuote,
    pub leg_back: LegQuote,
}

/// Output above input, or zero.
pub open spec fn profit_value(amount_in: u128, amount_out: u128) -> u128 {
    if amount_out >= amount_in {
        (amount_out - amount_in) as u128
    } else {
        0
    }
}

/// The larger of the ages that are known.
pub open spec fn max_age_value(left: Option<u64>, right: Option<u64>) -> Option<u64> {
    match (left, right) {
        (Some(a), Some(b)) => Some(if a >= b { a } else { b }),
        (Some(a), None) => Some(a),
        (None, Some(b)) => Some(b),
        (None, None) => None,
    }
}

/// The larger of two optional ages; an unknown age is left out.
pub fn max_age(left: Option<u64>, right: Option<u64>) -> (r: Option<u64>)
    ensures
        r == max_age_value(left, right),
{
    match (left, right) {
        (Some(a), Some(b)) => Some(if a >= b { a } else { b }),
        (Some(a), None) => Some(a),
        (None, Some(b)) => Some(b),
        (None, None) => None,
    }
}

/// The router venues of a leg's steps, in step order.
pub open spec fn step_venues(sets: Seq<Vec<ArbSwapStep>>) -> Seq<Seq<char>>
    decreases sets.len(),
{
    if sets.len() == 0 {
        seq![]
    } else {
        step_venues(sets.drop_last()) + sets.last()@.map_values(|s: ArbSwapStep| s.dex_type@)
    }
}

/// Each entry of `s` once, in the order of first occurrence.
pub open spec fn distinct_in_order(s: Seq<Seq<char>>) -> Seq<Seq<char>>
    decreases s.len(),
{
    if s.len() == 0 {
        seq![]
    } else {
        let before = distinct_in_order(s.drop_last());
        if before.contains(s.last()) {
            before
        } else {
            before.push(s.last())
        }
    }
}

/// The venues of a leg joined with `+`, or `unknown` for a leg without steps.
pub open spec fn leg_venue_label(leg: LegQuote) -> Seq<char> {
    let venues = distinct_in_order(step_venues(leg.step_sets@));
    if venues.len() == 0 {
        "unknown"@
    } else {
        joined(venues, "+"@)
    }
}

/// `venue:pool` of one step.
pub open spec fn step_pool_text(s: ArbSwapStep) -> Seq<char> {
    s.venue_type@ + ":"@ + s.pool_address@
}

/// The steps of one sub-route joined with ` → `.
pub open spec fn route_text(steps: Seq<ArbSwapStep>) -> Seq<char> {
    joined(steps.map_values(|s: ArbSwapStep| step_pool_text(s)), " → "@)
}

/// The sub-routes of a leg joined with ` || `, or `unknown` for a leg
/// without sub-routes.
pub open spec fn leg_pool_label(leg: LegQuote) -> Seq<char> {
    let routes = leg.step_sets@.map_values(|steps: Vec<ArbSwapStep>| route_text(steps@));
    if routes.len() == 0 {
        "unknown"@
    } else {
        joined(routes, " || "@)
    }
}

fn has_string(items: &Vec<String>, t: &str) -> (r: bool)
    ensures
        r == items@.map_values(|v: String| v@).contains(t@),
{
    let ghost views = items@.map_values(|v: String| v@);
    let mut i: usize = 0;
    while i < items.len()
        invariant
            i <= items@.len(),
            views == items@.map_values(|v: String| v@),
            forall|k: int| 0 <= k < i ==> views[k] != t@,
        decreases items.len() - i,
    {
        if str_eq(items[i].as_str(), t) {
            assert(views[i as int] == t@);
            return true;
        }
        i = i + 1;
    }
    false
}

fn venue_label_of(leg: &LegQuote) -> (r: String)
    ensures
        r@ == leg_venue_label(*leg),
{
    let ghost sets = leg.step_sets@;
    let mut venues: Vec<String> = Vec::new();
    let mut i: usize = 0;
    while i < leg.step_sets.len()
        invariant
            i <= sets.len(),
            sets == leg.step_sets@,
            venues@.map_values(|v: String| v@) == distinct_in_order(step_venues(sets.take(i as int))),
        decreases leg.step_sets.len() - i,
    {
        let steps = &leg.step_sets[i];
        let ghost done = step_venues(sets.take(i as int));
        let mut j: usize = 0;
        while j < steps.len()
            invariant
                j <= steps@.len(),
                venues@.map_values(|v: String| v@) == distinct_in_order(
                    done + steps@.take(j as int).map_values(|s: ArbSwapStep| s.dex_type@),
                ),
            decreases steps.len() - j,
        {
            let ghost pre = done + steps@.take(j as int).map_values(|s: ArbSwapStep| s.dex_type@);
            let ghost next = done + steps@.take(j + 1).map_values(|s: ArbSwapStep| s.dex_type@);
            proof {
                assert(next.drop_last() =~= pre);
                assert(next.last() == steps@[j as int].dex_type@);
            }
            let d = &steps[j].dex_type;
            if !has_string(&venues, d.as_str()) {
                let ghost old_views = venues@.map_values(|v: String| v@);
                venues.push(d.clone());
                proof {
                    assert(venues@.map_values(|v: String| v@) =~= old_views.push(d@));
                }
            }
            j = j + 1;
        }
        proof {
            assert(sets.take(i + 1).drop_last() =~= sets.take(i as int));
            assert(sets.take(i + 1).last() == sets[i as int]);
            assert(steps@.take(steps@.len() as int) =~= steps@);
        }
        i = i + 1;
    }
    proof {
        assert(sets.take(sets.len() as int) =~= sets);
    }
    if venues.len() == 0 {
        "unknown".to_owned()
    } else {
        join_strings(venues.as_slice(), "+")
    }
}

fn route_text_of(steps: &Vec<ArbSwapStep>) -> (r: String)
    ensures
        r@ == route_text(steps@),
{
    let mut texts: Vec<String> = Vec::new();
    let mut j: usize = 0;
    while j < steps.len()
        invariant
            j <= steps@.len(),
            texts@.map_values(|t: String| t@) == steps@.take(j as int).map_values(|s: ArbSwapStep| step_pool_text(s)),
        decreases steps.len() - j,
    {
        let mut t = String::new();
        t.append(steps[j].venue_type.as_str());
        t.append(":");
        t.append(steps[j].pool_address.as_str());
        let ghost old_views = texts@.map_values(|t: String| t@);
        texts.push(t);
        proof {
            assert(texts@.map_values(|t: String| t@) =~= old_views.push(step_pool_text(steps@[j as int])));
            assert(steps@.take(j + 1).map_values(|s: ArbSwapStep| step_pool_text(s)) =~= steps@.take(
                j as int,
            ).map_values(|s: ArbSwapStep| step_pool_text(s)).push(step_pool_text(steps@[j as int])));
        }
        j = j + 1;
    }
    proof {
        assert(steps@.take(steps@.len() as int) =~= steps@);
    }
    join_strings(texts.as_slice(), " → ")
}

fn pool_label_of(leg: &LegQuote) -> (r: String)
    ensures
        r@ == leg_pool_label(*leg),
{
    let ghost sets = leg.step_sets@;
    let mut routes: Vec<String> = Vec::new();
    let mut i: usize = 0;
    while i < leg.step_sets.len()
        invariant
            i <= sets.len(),
            sets == leg.step_sets@,
            routes@.map_values(|t: String| t@) == sets.take(i as int).map_values(
                |steps: Vec<ArbSwapStep>| route_text(steps@),
            ),
        decreases leg.step_sets.len() - i,
    {
        let t = route_text_of(&leg.step_sets[i]);
        let ghost old_views = routes@.map_values(|t: String| t@);
        routes.push(t);
        proof {
            assert(routes@.map_values(|t: String| t@) =~= old_views.push(route_text(sets[i as int]@)));
            assert(sets.take(i + 1).map_values(|steps: Vec<ArbSwapStep>| route_text(steps@)) =~= sets.take(
                i as int,
            ).map_values(|steps: Vec<ArbSwapStep>| route_text(steps@)).push(route_text(sets[i as int]@)));
        }
        i = i + 1;
    }
    proof {
        assert(sets.take(sets.len() as int) =~= sets);
    }
    if routes.len() == 0 {
        "unknown".to_owned()
    } else {
        join_strings(routes.as_slice(), " || ")
    }
}

impl RoundTripQuote {
    /// The venues of each leg, each once in order of use:
    /// `out-venues → back-venues`.
    pub fn venue_route_label(&self) -> (r: String)
        ensures
            r@ == leg_venue_label(self.leg_out) + " → "@ + leg_venue_label(self.leg_back),
    {
        let mut r = venue_label_of(&self.leg_out);
        r.append(" → ");
        let back = venue_label_of(&self.leg_back);
        r.append(back.as_str());
        r
    }

    /// Venue and pool of every step, for diagnostics after a submit: the
    /// steps of a sub-route joined with ` → `, split sub-routes with ` || `,
    /// and the two legs with ` || `.
    pub fn pool_route_label(&self) -> (r: String)
        ensures
            r@ == leg_pool_label(self.leg_out) + " || "@ + leg_pool_label(self.leg_back),
    {
        let mut r = pool_label_of(&self.leg_out);
        r.append(" || ");
        let back = pool_label_of(&self.leg_back);
        r.append(back.as_str());
        r
    }

    /// Base gained by the round trip, zero on a loss.
    pub fn profit(&self) -> (r: u128)
        ensures
            r == profit_value(self.amount_in, self.amount_out),
    {
        self.amount_out.saturating_sub(self.amount_in)
    }

    /// `base → bridge → base`.
    pub open spec fn route_label_value(&self) -> Seq<char> {
        self.base@ + " → "@ + self.bridge@ + " → "@ + self.base@
    }

    /// `base → bridge → base`.
    pub fn route_label(&self) -> (r: String)
        ensures
            r@ == self.route_label_value(),
    {
        let parts = vec![self.base.clone(), self.bridge.clone(), self.base.clone()];
        let r = join_strings(parts.as_slice(), " → ");
        proof {
            let views = parts@.map_values(|p: String| p@);
            let sep = " → "@;
            assert(views.len() == 3 && views[0] == self.base@ && views[1] == self.bridge@ && views[2] == self.base@);
            assert(views.drop_last().drop_last().len() == 1);
            assert(joined(views.drop_last().drop_last(), sep) == self.base@);
            assert(joined(views.drop_last(), sep) == self.base@ + sep + self.bridge@);
            assert(joined(views, sep) == self.base@ + sep + self.bridge@ + sep + self.base@);
        }
        r
    }

    /// The oldest quote snapshot of the two legs.
    pub fn quote_snapshot_age_ms(&self) -> (r: Option<u64>)
        ensures
            r == max_age_value(self.leg_out.snapshot_age_ms, self.leg_back.snapshot_age_ms),
    {
        max_age(self.leg_out.snapshot_age_ms, self.leg_back.snapshot_age_ms)
    }

    /// The oldest pool state of the two legs.
    pub fn pool_state_age_ms(&self) -> (r: Option<u64>)
        ensures
            r == max_age_value(self.leg_out.pool_state_age_ms, self.leg_back.pool_state_age_ms),
    {
        max_age(self.leg_out.pool_state_age_ms, self.leg_back.pool_state_age_ms)
    }
}

/// A saturating sum.
pub open spec fn sat_total(vals: Seq<u128>) -> u128
    decreases vals.len(),
{
    if vals.len() == 0 {
        0
    } else {
        let t = sat_total(vals.drop_last()) + vals.last();
        if t > u128::MAX {
            u128::MAX
        } else {
            t as u128
        }
    }
}

/// How many sub-orders of a leg are quoted back on their own: those that
/// come with their steps.
pub open spec fn split_count(leg: LegQuote) -> int {
    if leg.sub_orders@.len() <= leg.step_sets@.len() {
        leg.sub_orders@.len() as int
    } else {
        leg.step_sets@.len() as int
    }
}

/// The amounts of bridge token to quote back to base after the out-leg: its
/// whole output when it has at most one sub-order; else each sub-order's
/// output on its own, so that the back amounts match on chain. `None` when a
/// split sub-order gives no bridge output.
pub fn back_leg_inputs(leg_out: &LegQuote) -> (r: Option<Vec<u128>>)
    ensures
        leg_out.sub_orders@.len() <= 1 ==> (r matches Some(v) && v@ == seq![leg_out.total_expected_out]),
        leg_out.sub_orders@.len() > 1 ==> (r is None <==> exists|k: int|
            0 <= k < split_count(*leg_out) && #[trigger] leg_out.sub_orders@[k].expected_amount_out == 0),
        leg_out.sub_orders@.len() > 1 ==> (r matches Some(v) ==> v@ == Seq::new(
            split_count(*leg_out) as nat,
            |k: int| leg_out.sub_orders@[k].expected_amount_out,
        )),
{
    if leg_out.sub_orders.len() <= 1 {
        return Some(vec![leg_out.total_expected_out]);
    }
    let n = if leg_out.sub_orders.len() <= leg_out.step_sets.len() {
        leg_out.sub_orders.len()
    } else {
        leg_out.step_sets.len()
    };
    let mut out: Vec<u128> = Vec::new();
    let mut k: usize = 0;
    while k < n
        invariant
            n == split_count(*leg_out),
            n <= leg_out.sub_orders@.len(),
            leg_out.sub_orders@.len() > 1,
            k <= n,
            out@ == Seq::new(k as nat, |i: int| leg_out.sub_orders@[i].expected_amount_out),
            forall|i: int| 0 <= i < k ==> #[trigger] leg_out.sub_orders@[i].expected_amount_out != 0,
        decreases n - k,
    {
        let bridge_in = leg_out.sub_orders[k].expected_amount_out;
        if bridge_in == 0 {
            return None;
        }
        out.push(bridge_in);
        proof {
            assert(out@ =~= Seq::new((k + 1) as nat, |i: int| leg_out.sub_orders@[i].expected_amount_out));
        }
        k = k + 1;
    }
    Some(out)
}

/// The back leg of a split out-leg: the back quotes of its sub-orders put
/// together — their sub-orders and steps in order, their outputs and floors
/// summed (saturating) — for the out-leg's whole output.
pub fn merge_back_legs(leg_out: &LegQuote, parts: Vec<LegQuote>) -> (r: LegQuote)
    ensures
        r.sub_orders@ == parts@.map_values(|p: LegQuote| p.sub_orders@).flatten(),
        r.step_sets@ == parts@.map_values(|p: LegQuote| p.step_sets@).flatten(),
        r.total_expected_out == sat_total(parts@.map_values(|p: LegQuote| p.total_expected_out)),
        r.minimum_out == sat_total(parts@.map_values(|p: LegQuote| p.minimum_out)),
        r.total_amount_in == leg_out.total_expected_out,
        r.is_split == (leg_out.sub_orders@.len() > 1),
        r.snapshot_age_ms == leg_out.snapshot_age_ms,
        r.pool_state_age_ms == leg_out.pool_state_age_ms,
{
    let ghost all = parts@;
    let mut rest = parts;
    let count = rest.len();
    let mut sub_orders: Vec<SubOrder> = Vec::new();
    let mut step_sets: Vec<Vec<ArbSwapStep>> = Vec::new();
    let mut total_out: u128 = 0;
    let mut total_minimum: u128 = 0;
    let mut k: usize = 0;
    while rest.len() > 0
        invariant
            k <= all.len(),
            all.len() == count,
            k + rest@.len() == all.len(),
            rest@ == all.skip(k as int),
            sub_orders@ == all.take(k as int).map_values(|p: LegQuote| p.sub_orders@).flatten(),
            step_sets@ == all.take(k as int).map_values(|p: LegQuote| p.step_sets@).flatten(),
            total_out == sat_total(all.take(k as int).map_values(|p: LegQuote| p.total_expected_out)),
            total_minimum == sat_total(all.take(k as int).map_values(|p: LegQuote| p.minimum_out)),
        decreases rest.len(),
    {
        let mut part = rest.remove(0);
        proof {
            assert(part == all[k as int]);
            assert(rest@ =~= all.skip(k + 1));
            let before = all.take(k as int);
            let after = all.take(k + 1);
            assert(after =~= before.push(part));
            assert(after.map_values(|p: LegQuote| p.sub_orders@) =~= before.map_values(
                |p: LegQuote| p.sub_orders@,
            ).push(part.sub_orders@));
            before.map_values(|p: LegQuote| p.sub_orders@).lemma_flatten_push(part.sub_orders@);
            assert(after.map_values(|p: LegQuote| p.step_sets@) =~= before.map_values(
                |p: LegQuote| p.step_sets@,
            ).push(part.step_sets@));
            before.map_values(|p: LegQuote| p.step_sets@).lemma_flatten_push(part.step_sets@);
            assert(after.map_values(|p: LegQuote| p.total_expected_out).drop_last() =~= before.map_values(
                |p: LegQuote| p.total_expected_out,
            ));
            assert(after.map_values(|p: LegQuote| p.minimum_out).drop_last() =~= before.map_values(
                |p: LegQuote| p.minimum_out,
            ));
        }
        total_out = total_out.saturating_add(part.total_expected_out);
        total_minimum = total_minimum.saturating_add(part.minimum_out);
        sub_orders.append(&mut part.sub_orders);
        step_sets.append(&mut part.step_sets);
        k = k + 1;
    }
    proof {
        assert(all.take(k as int) =~= all);
    }
    LegQuote {
        sub_orders,
        total_amount_in: leg_out.total_expected_out,
        total_expected_out: total_out,
        is_split: leg_out.sub_orders.len() > 1,
        step_sets,
        minimum_out: total_minimum,
        snapshot_age_ms: leg_out.snapshot_age_ms,
        pool_state_age_ms: leg_out.pool_state_age_ms,
    }
}

/// The round trip of two quoted legs: its output and floor are the back
/// leg's.
pub fn round_trip_from_legs(
    base: String,
    bridge: String,
    amount_in: u128,
    leg_out: LegQuote,
    leg_back: LegQuote,
) -> (r: RoundTripQuote)
    ensures
        r.base@ == base@ && r.bridge@ == bridge@ && r.amount_in == amount_in,
        r.amount_out == leg_back.total_expected_out,
        r.minimum_out == leg_back.minimum_out,
        r.leg_out == leg_out && r.leg_back == leg_back,
{
    let amount_out = leg_back.total_expected_out;
    let minimum_out = leg_back.minimum_out;
    RoundTripQuote { base, bridge, amount_in, amount_out, minimum_out, leg_out, leg_back }
}

} // verus!
