//! The quote-api response of one leg, and how it becomes a quoted leg: its
//! sub-routes checked for shape, their amounts parsed, and their hops turned
//! into swap steps.

use vstd::prelude::*;

use crate::bridge::{LegQuote, SubOrder};
use crate::config::{parse_number, parse_unsigned, trim_end_slashes};
use crate::text::chars_of;
use vstd::string::StrSliceExecFns;
use crate::invoke::{dex_type_value, source_to_dex_type, ArbSwapStep};

verus! {

/// One sub-route of a quote-api answer (its share of the input, a float, is
/// not read).
#[derive(Debug, Clone)]
pub struct QuoteApiSubRoute {
    pub source: String,
    pub path: Vec<String>,
    pub pool_addresses: Vec<String>,
    pub dex_types: Vec<String>,
    pub in_indices: Vec<u32>,
    pub out_indices: Vec<u32>,
    pub amount_in: String,
    pub amount_out: String,
}

/// The data of a successful quote-api answer (its price impact, a float, is
/// not read).
#[derive(Debug, Clone)]
pub struct QuoteApiData {
    pub amount_in: String,
    pub expected_output: String,
    pub minimum_output: String,
    pub is_split: bool,
    pub sub_routes: Vec<QuoteApiSubRoute>,
    pub compute_time_ms: u64,
}

/// Why a quote-api answer gives no leg.
#[derive(Debug, Clone, PartialEq, Eq)]
pub enum QuoteApiError {
    /// The answer has no sub-route.
    EmptySubRoutes,
    /// A sub-route's path does not hold one token more than its pools.
    PathLength { path: usize, hops: usize },
    /// A sub-route's venues or indices do not match its pools in number.
    HopMetadataMismatch,
    /// A hop's venue is not one the arbitrage contract routes.
    UnsupportedSource { source: String },
    /// An amount is not an unsigned decimal that fits in `u128`.
    InvalidAmount { field: String, raw: String },
}

/// An amount field of the answer, parsed as `u128::from_str` does.
pub open spec fn amount_value(raw: Seq<char>) -> Option<u128> {
    match parse_unsigned(raw, u128::MAX as nat) {
        Some(v) => Some(v as u128),
        None => None,
    }
}

/// Parse an amount field of the answer.
pub fn parse_u128_field(name: &str, raw: &str) -> (r: Result<u128, QuoteApiError>)
    ensures
        r matches Ok(v) ==> amount_value(raw@) == Some(v),
        r matches Err(e) ==> amount_value(raw@) is None && (e matches QuoteApiError::InvalidAmount {
            field,
            raw: text,
        } && field@ == name@ && text@ == raw@),
{
    match parse_number(raw, u128::MAX) {
        Some(v) => Ok(v),
        None => Err(QuoteApiError::InvalidAmount { field: name.to_owned(), raw: raw.to_owned() }),
    }
}

/// The shape of a sub-route: one token more than pools, and a venue and two
/// indices per pool.
pub open spec fn sub_route_shape_ok(sub: QuoteApiSubRoute) -> bool {
    let hops = sub.pool_addresses@.len();
    &&& sub.path@.len() == hops + 1
    &&& sub.dex_types@.len() == hops && sub.in_indices@.len() == hops && sub.out_indices@.len() == hops
}

/// Every hop's venue is one the contract routes.
pub open spec fn sub_route_sources_ok(sub: QuoteApiSubRoute) -> bool {
    forall|i: int| 0 <= i < sub.dex_types@.len() ==> #[trigger] dex_type_value(sub.dex_types@[i]@) is Some
}

/// A sub-route gives a sub-order and steps.
pub open spec fn sub_route_ok(sub: QuoteApiSubRoute) -> bool {
    &&& sub_route_shape_ok(sub)
    &&& amount_value(sub.amount_in@) is Some
    &&& amount_value(sub.amount_out@) is Some
    &&& sub_route_sources_ok(sub)
}

/// The step of hop `i` of a sub-route.
pub open spec fn step_matches(sub: QuoteApiSubRoute, i: int, s: ArbSwapStep) -> bool {
    &&& s.venue_type@ == sub.dex_types@[i]@
    &&& Some(s.dex_type@) == dex_type_value(sub.dex_types@[i]@)
    &&& s.pool_address@ == sub.pool_addresses@[i]@
    &&& s.token_in@ == sub.path@[i]@ && s.token_out@ == sub.path@[i + 1]@
    &&& s.in_idx == sub.in_indices@[i] && s.out_idx == sub.out_indices@[i]
}

/// The steps of a sub-route, one per hop.
pub open spec fn steps_match(sub: QuoteApiSubRoute, steps: Seq<ArbSwapStep>) -> bool {
    &&& steps.len() == sub.pool_addresses@.len()
    &&& forall|i: int| 0 <= i < steps.len() ==> step_matches(sub, i, #[trigger] steps[i])
}

/// The sub-order of a sub-route.
pub open spec fn sub_order_matches(sub: QuoteApiSubRoute, o: SubOrder) -> bool {
    &&& o.sources@ == sub.dex_types@
    &&& o.pool_addresses@ == sub.pool_addresses@
    &&& Some(o.amount_in) == amount_value(sub.amount_in@)
    &&& Some(o.expected_amount_out) == amount_value(sub.amount_out@)
}

/// Hop `i` is the first whose venue the contract does not route.
pub open spec fn first_unsupported(sub: QuoteApiSubRoute, i: int) -> bool {
    &&& 0 <= i < sub.dex_types@.len()
    &&& dex_type_value(sub.dex_types@[i]@) is None
    &&& forall|j: int| 0 <= j < i ==> #[trigger] dex_type_value(sub.dex_types@[j]@) is Some
}

/// `e` is the error that a sub-route gives: its shape is checked first, then
/// its amounts (input before output), then the venue of each hop in order.
pub open spec fn sub_route_fails_with(sub: QuoteApiSubRoute, e: QuoteApiError) -> bool {
    let hops = sub.pool_addresses@.len();
    match e {
        QuoteApiError::PathLength { path, hops: h } => sub.path@.len() != hops + 1 && path == sub.path@.len()
            && h == hops,
        QuoteApiError::HopMetadataMismatch => sub.path@.len() == hops + 1 && !sub_route_shape_ok(sub),
        QuoteApiError::InvalidAmount { field, raw } => sub_route_shape_ok(sub) && (if amount_value(
            sub.amount_in@,
        ) is None {
            field@ == "sub_route.amount_in"@ && raw@ == sub.amount_in@
        } else {
            amount_value(sub.amount_out@) is None && field@ == "sub_route.amount_out"@ && raw@ == sub.amount_out@
        }),
        QuoteApiError::UnsupportedSource { source } => sub_route_shape_ok(sub) && amount_value(sub.amount_in@) is Some
            && amount_value(sub.amount_out@) is Some && exists|i: int|
            first_unsupported(sub, i) && source@ == #[trigger] sub.dex_types@[i]@,
        QuoteApiError::EmptySubRoutes => false,
    }
}

fn copy_strings(v: &Vec<String>) -> (r: Vec<String>)
    ensures
        r@ == v@,
{
    let mut out: Vec<String> = Vec::new();
    let mut i: usize = 0;
    while i < v.len()
        invariant
            i <= v@.len(),
            out@ == v@.take(i as int),
        decreases v.len() - i,
    {
        out.push(v[i].clone());
        proof {
            assert(out@ =~= v@.take(i + 1));
        }
        i = i + 1;
    }
    proof {
        assert(v@.take(v@.len() as int) =~= v@);
    }
    out
}

/// The sub-order of a sub-route, after its shape is checked: its venues,
/// pools and amounts.
pub fn sub_order_from_api(sub: &QuoteApiSubRoute) -> (r: Result<SubOrder, QuoteApiError>)
    ensures
        r matches Ok(o) ==> sub_route_shape_ok(*sub) && sub_order_matches(*sub, o),
        r matches Err(e) ==> sub_route_fails_with(*sub, e) && !(e is UnsupportedSource),
{
    let hops = sub.pool_addresses.len();
    if sub.path.len() == 0 || sub.path.len() - 1 != hops {
        return Err(QuoteApiError::PathLength { path: sub.path.len(), hops });
    }
    if sub.dex_types.len() != hops || sub.in_indices.len() != hops || sub.out_indices.len() != hops {
        return Err(QuoteApiError::HopMetadataMismatch);
    }
    let amount_in = match parse_u128_field("sub_route.amount_in", sub.amount_in.as_str()) {
        Ok(v) => v,
        Err(e) => {
            return Err(e);
        },
    };
    let expected_amount_out = match parse_u128_field("sub_route.amount_out", sub.amount_out.as_str()) {
        Ok(v) => v,
        Err(e) => {
            return Err(e);
        },
    };
    Ok(SubOrder {
        sources: copy_strings(&sub.dex_types),
        pool_addresses: copy_strings(&sub.pool_addresses),
        amount_in,
        expected_amount_out,
    })
}

/// The swap steps of a sub-route whose shape is checked, one per hop: the
/// hop's venue, its router name, pool, tokens and indices. The first hop
/// whose venue the contract does not route is an error.
pub fn steps_from_api_sub_route(sub: &QuoteApiSubRoute) -> (r: Result<Vec<ArbSwapStep>, QuoteApiError>)
    requires
        sub_route_shape_ok(*sub),
    ensures
        r is Ok <==> sub_route_sources_ok(*sub),
        r matches Ok(steps) ==> steps_match(*sub, steps@),
        r matches Err(e) ==> (e matches QuoteApiError::UnsupportedSource { source } && exists|i: int|
            first_unsupported(*sub, i) && source@ == #[trigger] sub.dex_types@[i]@),
{
    let hops = sub.pool_addresses.len();
    let mut steps: Vec<ArbSwapStep> = Vec::new();
    let mut i: usize = 0;
    while i < hops
        invariant
            hops == sub.pool_addresses@.len(),
            sub_route_shape_ok(*sub),
            i <= hops,
            steps@.len() == i,
            forall|k: int| 0 <= k < i ==> step_matches(*sub, k, #[trigger] steps@[k]),
            forall|k: int| 0 <= k < i ==> #[trigger] dex_type_value(sub.dex_types@[k]@) is Some,
        decreases hops - i,
    {
        let source = &sub.dex_types[i];
        let dex_type = match source_to_dex_type(source.as_str()) {
            Ok(t) => t,
            Err(_) => {
                proof {
                    assert(first_unsupported(*sub, i as int));
                }
                return Err(QuoteApiError::UnsupportedSource { source: source.clone() });
            },
        };
        let step = ArbSwapStep {
            venue_type: source.clone(),
            dex_type: dex_type.to_owned(),
            pool_address: sub.pool_addresses[i].clone(),
            token_in: sub.path[i].clone(),
            token_out: sub.path[i + 1].clone(),
            in_idx: sub.in_indices[i],
            out_idx: sub.out_indices[i],
        };
        steps.push(step);
        i = i + 1;
    }
    Ok(steps)
}

/// `e` is the error of the answer's totals, read after its sub-routes:
/// input, then expected output, then the floor.
pub open spec fn totals_fail_with(data: QuoteApiData, e: QuoteApiError) -> bool {
    match e {
        QuoteApiError::InvalidAmount { field, raw } => if amount_value(data.amount_in@) is None {
            field@ == "amount_in"@ && raw@ == data.amount_in@
        } else if amount_value(data.expected_output@) is None {
            field@ == "expected_output"@ && raw@ == data.expected_output@
        } else {
            amount_value(data.minimum_output@) is None && field@ == "minimum_output"@ && raw@
                == data.minimum_output@
        },
        _ => false,
    }
}

/// A quoted leg from a quote-api answer: one sub-order and one step list per
/// sub-route, and the answer's totals. The first sub-route that cannot be
/// read, or else the first total that is not an amount, is the error.
pub fn leg_quote_from_api(data: QuoteApiData) -> (r: Result<LegQuote, QuoteApiError>)
    ensures
        data.sub_routes@.len() == 0 ==> (r matches Err(e) && e is EmptySubRoutes),
        data.sub_routes@.len() > 0 ==> match r {
            Ok(leg) => {
                &&& forall|k: int| 0 <= k < data.sub_routes@.len() ==> sub_route_ok(#[trigger] data.sub_routes@[k])
                &&& leg.sub_orders@.len() == data.sub_routes@.len() && leg.step_sets@.len() == data.sub_routes@.len()
                &&& forall|k: int|
                    0 <= k < data.sub_routes@.len() ==> sub_order_matches(
                        #[trigger] data.sub_routes@[k],
                        leg.sub_orders@[k],
                    ) && steps_match(data.sub_routes@[k], leg.step_sets@[k]@)
                &&& Some(leg.total_amount_in) == amount_value(data.amount_in@)
                &&& Some(leg.total_expected_out) == amount_value(data.expected_output@)
                &&& Some(leg.minimum_out) == amount_value(data.minimum_output@)
                &&& leg.is_split == data.is_split
                &&& leg.snapshot_age_ms is None && leg.pool_state_age_ms is None
            },
            Err(e) => (exists|k: int|
                0 <= k < data.sub_routes@.len() && (forall|j: int|
                    0 <= j < k ==> sub_route_ok(#[trigger] data.sub_routes@[j])) && !sub_route_ok(
                    #[trigger] data.sub_routes@[k],
                ) && sub_route_fails_with(data.sub_routes@[k], e)) || ((forall|k: int|
                0 <= k < data.sub_routes@.len() ==> sub_route_ok(#[trigger] data.sub_routes@[k])) && totals_fail_with(
                data,
                e,
            )),
        },
{
    if data.sub_routes.len() == 0 {
        return Err(QuoteApiError::EmptySubRoutes);
    }
    let ghost subs = data.sub_routes@;
    let mut sub_orders: Vec<SubOrder> = Vec::new();
    let mut step_sets: Vec<Vec<ArbSwapStep>> = Vec::new();
    let mut k: usize = 0;
    while k < data.sub_routes.len()
        invariant
            subs == data.sub_routes@,
            k <= subs.len(),
            sub_orders@.len() == k && step_sets@.len() == k,
            forall|j: int| 0 <= j < k ==> sub_route_ok(#[trigger] subs[j]),
            forall|j: int|
                0 <= j < k ==> sub_order_matches(#[trigger] subs[j], sub_orders@[j]) && steps_match(
                    subs[j],
                    step_sets@[j]@,
                ),
        decreases data.sub_routes.len() - k,
    {
        let sub = &data.sub_routes[k];
        let order = match sub_order_from_api(sub) {
            Ok(o) => o,
            Err(e) => {
                proof {
                    assert(!sub_route_ok(subs[k as int]));
                }
                return Err(e);
            },
        };
        let steps = match steps_from_api_sub_route(sub) {
            Ok(s) => s,
            Err(e) => {
                proof {
                    assert(!sub_route_ok(subs[k as int]));
                }
                return Err(e);
            },
        };
        sub_orders.push(order);
        step_sets.push(steps);
        k = k + 1;
    }
    let total_amount_in = match parse_u128_field("amount_in", data.amount_in.as_str()) {
        Ok(v) => v,
        Err(e) => {
            return Err(e);
        },
    };
    let total_expected_out = match parse_u128_field("expected_output", data.expected_output.as_str()) {
        Ok(v) => v,
        Err(e) => {
            return Err(e);
        },
    };
    let minimum_out = match parse_u128_field("minimum_output", data.minimum_output.as_str()) {
        Ok(v) => v,
        Err(e) => {
            return Err(e);
        },
    };
    Ok(LegQuote {
        sub_orders,
        total_amount_in,
        total_expected_out,
        is_split: data.is_split,
        step_sets,
        minimum_out,
        snapshot_age_ms: None,
        pool_state_age_ms: None,
    })
}

/// The quote-api instance used when none is configured.
pub const DEFAULT_QUOTE_API_URL: &'static str = "http://127.0.0.1:3100";

fn without_trailing_slashes(s: &str) -> (r: String)
    ensures
        r@ == trim_end_slashes(s@),
{
    let c = chars_of(s);
    let mut e: usize = c.len();
    proof {
        assert(c@.subrange(0, e as int) =~= s@);
    }
    while e > 0 && c[e - 1] == '/'
        invariant
            e <= c@.len(),
            c@ == s@,
            trim_end_slashes(s@) == trim_end_slashes(c@.subrange(0, e as int)),
        decreases e,
    {
        proof {
            assert(c@.subrange(0, e as int).drop_last() =~= c@.subrange(0, e - 1));
        }
        e = e - 1;
    }
    s.substring_char(0, e).to_owned()
}

/// The quote-api base URLs a client rotates over: the configured ones
/// without trailing slashes, or the local default when none is configured.
pub fn quote_api_base_urls(base_urls: &Vec<String>) -> (r: Vec<String>)
    ensures
        base_urls@.len() == 0 ==> r.deep_view() == seq![DEFAULT_QUOTE_API_URL@],
        base_urls@.len() > 0 ==> r.deep_view() == base_urls.deep_view().map_values(
            |u: Seq<char>| trim_end_slashes(u),
        ),
{
    if base_urls.len() == 0 {
        let r = vec![DEFAULT_QUOTE_API_URL.to_owned()];
        proof {
            assert(r.deep_view() =~= seq![DEFAULT_QUOTE_API_URL@]);
        }
        return r;
    }
    let ghost urls = base_urls.deep_view();
    let mut out: Vec<String> = Vec::new();
    let mut i: usize = 0;
    while i < base_urls.len()
        invariant
            urls == base_urls.deep_view(),
            i <= urls.len(),
            out.deep_view() == urls.take(i as int).map_values(|u: Seq<char>| trim_end_slashes(u)),
        decreases base_urls.len() - i,
    {
        let u = without_trailing_slashes(base_urls[i].as_str());
        let ghost before = out.deep_view();
        out.push(u);
        proof {
            assert(out.deep_view() =~= before.push(trim_end_slashes(urls[i as int])));
            assert(urls.take(i + 1).map_values(|u: Seq<char>| trim_end_slashes(u)) =~= urls.take(i as int).map_values(
                |u: Seq<char>| trim_end_slashes(u),
            ).push(trim_end_slashes(urls[i as int])));
        }
        i = i + 1;
    }
    proof {
        assert(urls.take(urls.len() as int) =~= urls);
    }
    out
}

} // verus!
