//! The arguments of the atomic on-chain round trip (`round_trip_swap` on the
//! aggregator, or `execute_round_trip` on the vault): every address decoded
//! to its key, the legs' sub-route amounts prepared, and every swap step
//! resolved to the contract's dex enum.

use vstd::prelude::*;

use crate::bridge::{LegQuote, SubOrder};
use crate::invoke::{amounts_sum, back_weight, normalized_amounts, prepare_round_trip_amounts, ArbSwapStep};
use crate::text::str_eq;
use crate::utils::{account_key_of, contract_id_of, decode_account_key, decode_contract_id};

verus! {

/// One swap step as the contract takes it.
#[derive(Debug, Clone)]
pub struct CallStep {
    pub pool: [u8; 32],
    pub dex_enum: String,
    pub in_idx: u32,
    pub out_idx: u32,
    pub token_in: [u8; 32],
    pub token_out: [u8; 32],
}

/// One sub-route of a leg as the contract takes it.
#[derive(Debug, Clone)]
pub struct CallSubRoute {
    pub amount_in: u128,
    pub steps: Vec<CallStep>,
}

/// The arguments of a round-trip call. `vault` is the vault contract when
/// the call goes through the vault's `execute_round_trip`.
#[derive(Debug, Clone)]
pub struct RoundTripCall {
    pub vault: Option<[u8; 32]>,
    pub aggregator: [u8; 32],
    pub caller: [u8; 32],
    pub base: [u8; 32],
    pub bridge: [u8; 32],
    pub amount_in: i128,
    pub leg_out: Vec<CallSubRoute>,
    pub leg_back: Vec<CallSubRoute>,
    pub min_amount_out: i128,
}

/// Why the round-trip call cannot be built.
#[derive(Debug, Clone, PartialEq, Eq)]
pub enum BuildError {
    /// The input is not positive.
    NonPositiveAmount,
    /// The minimum output is below the input.
    MinBelowPrincipal,
    /// A leg has no sub-route.
    EmptyLeg,
    /// The caller is not an account strkey.
    InvalidAccount { text: String },
    /// An address is not a contract strkey.
    InvalidContract { text: String },
    /// A leg's sub-routes and step lists differ in number.
    SubRouteCountMismatch { sub_orders: usize, step_sets: usize },
    /// A step's dex type has no variant in the contract's enum.
    UnknownDexType { dex_type: String },
}

/// The variant of the contract's dex enum for a router dex type.
pub open spec fn dex_enum_value(dex_type: Seq<char>) -> Option<Seq<char>> {
    if dex_type == "aquarius"@ {
        Some("Aquarius"@)
    } else if dex_type == "soroswap"@ {
        Some("SoroswapPair"@)
    } else if dex_type == "phoenix"@ {
        Some("Phoenix"@)
    } else if dex_type == "sushi"@ {
        Some("Sushi"@)
    } else if dex_type == "comet"@ {
        Some("CometDex"@)
    } else {
        None
    }
}

/// The contract's dex enum variant for a router dex type.
pub fn dex_enum_name(dex_type: &str) -> (r: Option<&'static str>)
    ensures
        match r {
            Some(n) => dex_enum_value(dex_type@) == Some(n@),
            None => dex_enum_value(dex_type@) is None,
        },
{
    if str_eq(dex_type, "aquarius") {
        Some("Aquarius")
    } else if str_eq(dex_type, "soroswap") {
        Some("SoroswapPair")
    } else if str_eq(dex_type, "phoenix") {
        Some("Phoenix")
    } else if str_eq(dex_type, "sushi") {
        Some("Sushi")
    } else if str_eq(dex_type, "comet") {
        Some("CometDex")
    } else {
        None
    }
}

/// A step's addresses are contract strkeys and its dex type is known.
pub open spec fn step_call_ok(s: ArbSwapStep) -> bool {
    &&& contract_id_of(s.pool_address@) is Some
    &&& contract_id_of(s.token_in@) is Some
    &&& contract_id_of(s.token_out@) is Some
    &&& dex_enum_value(s.dex_type@) is Some
}

/// `c` is step `s` as the contract takes it.
pub open spec fn step_call_matches(s: ArbSwapStep, c: CallStep) -> bool {
    &&& Some(c.pool@) == contract_id_of(s.pool_address@)
    &&& Some(c.token_in@) == contract_id_of(s.token_in@)
    &&& Some(c.token_out@) == contract_id_of(s.token_out@)
    &&& Some(c.dex_enum@) == dex_enum_value(s.dex_type@)
    &&& c.in_idx == s.in_idx && c.out_idx == s.out_idx
}

/// A leg's sub-routes match its step lists and every step can be built.
pub open spec fn leg_call_ok(leg: LegQuote) -> bool {
    &&& leg.sub_orders@.len() == leg.step_sets@.len()
    &&& forall|k: int, j: int|
        0 <= k < leg.step_sets@.len() && 0 <= j < leg.step_sets@[k]@.len() ==> step_call_ok(
            #[trigger] leg.step_sets@[k]@[j],
        )
}

/// `subs` is the leg with the sub-route amounts `amounts`.
pub open spec fn leg_call_matches(leg: LegQuote, amounts: Seq<u128>, subs: Seq<CallSubRoute>) -> bool {
    &&& subs.len() == leg.step_sets@.len()
    &&& forall|k: int|
        0 <= k < subs.len() ==> (#[trigger] subs[k]).amount_in == amounts[k] && subs[k].steps@.len()
            == leg.step_sets@[k]@.len() && forall|j: int|
            0 <= j < subs[k].steps@.len() ==> step_call_matches(leg.step_sets@[k]@[j], #[trigger] subs[k].steps@[j])
}

/// The quoted input amounts of a leg's sub-orders.
pub open spec fn sub_order_inputs(leg: LegQuote) -> Seq<u128> {
    leg.sub_orders@.map_values(|s: SubOrder| s.amount_in)
}

/// The quoted outputs of a leg's sub-orders.
pub open spec fn sub_order_outputs(leg: LegQuote) -> Seq<u128> {
    leg.sub_orders@.map_values(|s: SubOrder| s.expected_amount_out)
}

/// Every address of the call decodes.
pub open spec fn addresses_ok(vault: Option<&str>, aggregator: &str, caller: &str, base: &str, bridge: &str) -> bool {
    &&& account_key_of(vstd::utf8::encode_utf8(caller@)) is Some
    &&& (vault matches Some(v) ==> contract_id_of(v@) is Some)
    &&& contract_id_of(aggregator@) is Some
    &&& contract_id_of(base@) is Some
    &&& contract_id_of(bridge@) is Some
}

fn call_step(s: &ArbSwapStep) -> (r: Result<CallStep, BuildError>)
    ensures
        r is Ok <==> step_call_ok(*s),
        r matches Ok(c) ==> step_call_matches(*s, c),
        r matches Err(e) ==> match e {
            BuildError::InvalidContract { text } => contract_id_of(text@) is None,
            BuildError::UnknownDexType { dex_type } => dex_enum_value(dex_type@) is None,
            _ => false,
        },
{
    let pool = match decode_contract_id(s.pool_address.as_str()) {
        Ok(k) => k,
        Err(_) => return Err(BuildError::InvalidContract { text: s.pool_address.clone() }),
    };
    let token_in = match decode_contract_id(s.token_in.as_str()) {
        Ok(k) => k,
        Err(_) => return Err(BuildError::InvalidContract { text: s.token_in.clone() }),
    };
    let token_out = match decode_contract_id(s.token_out.as_str()) {
        Ok(k) => k,
        Err(_) => return Err(BuildError::InvalidContract { text: s.token_out.clone() }),
    };
    let dex_enum = match dex_enum_name(s.dex_type.as_str()) {
        Some(n) => n,
        None => return Err(BuildError::UnknownDexType { dex_type: s.dex_type.clone() }),
    };
    Ok(CallStep { pool, dex_enum: dex_enum.to_owned(), in_idx: s.in_idx, out_idx: s.out_idx, token_in, token_out })
}

fn call_leg(leg: &LegQuote, amounts: &Vec<u128>) -> (r: Result<Vec<CallSubRoute>, BuildError>)
    requires
        amounts@.len() == leg.sub_orders@.len(),
    ensures
        r is Ok <==> leg_call_ok(*leg),
        r matches Ok(subs) ==> leg_call_matches(*leg, amounts@, subs@),
        r matches Err(e) ==> match e {
            BuildError::InvalidContract { text } => contract_id_of(text@) is None,
            BuildError::UnknownDexType { dex_type } => dex_enum_value(dex_type@) is None,
            BuildError::SubRouteCountMismatch { sub_orders, step_sets } => sub_orders == leg.sub_orders@.len()
                && step_sets == leg.step_sets@.len() && sub_orders != step_sets,
            _ => false,
        },
{
    if leg.sub_orders.len() != leg.step_sets.len() {
        return Err(
            BuildError::SubRouteCountMismatch { sub_orders: leg.sub_orders.len(), step_sets: leg.step_sets.len() },
        );
    }
    let mut subs: Vec<CallSubRoute> = Vec::new();
    let mut k: usize = 0;
    while k < leg.step_sets.len()
        invariant
            amounts@.len() == leg.sub_orders@.len(),
            leg.sub_orders@.len() == leg.step_sets@.len(),
            k <= leg.step_sets@.len(),
            subs@.len() == k,
            forall|a: int, j: int|
                0 <= a < k && 0 <= j < leg.step_sets@[a]@.len() ==> step_call_ok(#[trigger] leg.step_sets@[a]@[j]),
            forall|a: int|
                0 <= a < k ==> (#[trigger] subs@[a]).amount_in == amounts@[a] && subs@[a].steps@.len()
                    == leg.step_sets@[a]@.len() && forall|j: int|
                    0 <= j < subs@[a].steps@.len() ==> step_call_matches(
                        leg.step_sets@[a]@[j],
                        #[trigger] subs@[a].steps@[j],
                    ),
        decreases leg.step_sets.len() - k,
    {
        let set = &leg.step_sets[k];
        let mut steps: Vec<CallStep> = Vec::new();
        let mut j: usize = 0;
        while j < set.len()
            invariant
                k < leg.step_sets@.len(),
                *set == leg.step_sets@[k as int],
                j <= set@.len(),
                steps@.len() == j,
                forall|b: int| 0 <= b < j ==> step_call_ok(#[trigger] set@[b]),
                forall|b: int| 0 <= b < j ==> step_call_matches(set@[b], #[trigger] steps@[b]),
            decreases set.len() - j,
        {
            let c = match call_step(&set[j]) {
                Ok(c) => c,
                Err(e) => {
                    proof {
                        assert(!step_call_ok(leg.step_sets@[k as int]@[j as int]));
                    }
                    return Err(e);
                },
            };
            steps.push(c);
            j = j + 1;
        }
        let ghost before = subs@;
        subs.push(CallSubRoute { amount_in: amounts[k], steps });
        proof {
            assert forall|a: int| 0 <= a < k + 1 implies (#[trigger] subs@[a]).amount_in == amounts@[a]
                && subs@[a].steps@.len() == leg.step_sets@[a]@.len() && forall|j: int|
                0 <= j < subs@[a].steps@.len() ==> step_call_matches(
                    leg.step_sets@[a]@[j],
                    #[trigger] subs@[a].steps@[j],
                ) by {
                if a < k {
                    assert(subs@[a] == before[a]);
                }
            }
        }
        k = k + 1;
    }
    Ok(subs)
}

/// The arguments of the atomic round trip: the checks come first (a
/// positive input, a minimum output not below it, two non-empty legs), then
/// the caller's and the contracts' addresses are decoded (the vault's first,
/// when there is one), the leg amounts are prepared, and each leg's steps
/// are resolved, leg-out first. The leg-out sub-route amounts sum exactly
/// to `amount_in`; the leg-back amounts are weights of at least 1.
pub fn round_trip_call(
    vault: Option<&str>,
    aggregator: &str,
    caller: &str,
    base: &str,
    bridge: &str,
    amount_in: i128,
    leg_out: &LegQuote,
    leg_back: &LegQuote,
    min_amount_out: i128,
) -> (r: Result<RoundTripCall, BuildError>)
    requires
        amounts_sum(sub_order_inputs(*leg_out)) <= u128::MAX,
    ensures
        amount_in <= 0 ==> r == Err::<RoundTripCall, BuildError>(BuildError::NonPositiveAmount),
        amount_in > 0 && min_amount_out < amount_in ==> r == Err::<RoundTripCall, BuildError>(
            BuildError::MinBelowPrincipal,
        ),
        amount_in > 0 && min_amount_out >= amount_in && (leg_out.sub_orders@.len() == 0
            || leg_back.sub_orders@.len() == 0) ==> r == Err::<RoundTripCall, BuildError>(BuildError::EmptyLeg),
        amount_in > 0 && min_amount_out >= amount_in && leg_out.sub_orders@.len() > 0
            && leg_back.sub_orders@.len() > 0 ==> (r is Ok <==> addresses_ok(vault, aggregator, caller, base, bridge)
            && leg_call_ok(*leg_out) && leg_call_ok(*leg_back)),
        r matches Ok(c) ==> {
            &&& Some(c.caller@) == account_key_of(vstd::utf8::encode_utf8(caller@))
            &&& match vault {
                Some(v) => c.vault matches Some(k) && Some(k@) == contract_id_of(v@),
                None => c.vault is None,
            }
            &&& Some(c.aggregator@) == contract_id_of(aggregator@)
            &&& Some(c.base@) == contract_id_of(base@)
            &&& Some(c.bridge@) == contract_id_of(bridge@)
            &&& c.amount_in == amount_in && c.min_amount_out == min_amount_out
            &&& leg_call_matches(*leg_out, normalized_amounts(sub_order_inputs(*leg_out), amount_in as u128), c.leg_out@)
            &&& leg_call_matches(
                *leg_back,
                Seq::new(
                    leg_back.sub_orders@.len(),
                    |i: int| back_weight(sub_order_outputs(*leg_out), sub_order_inputs(*leg_back), i),
                ),
                c.leg_back@,
            )
            &&& amounts_sum(normalized_amounts(sub_order_inputs(*leg_out), amount_in as u128)) == amount_in
        },
        r matches Err(e) ==> match e {
            BuildError::InvalidAccount { text } => text@ == caller@ && account_key_of(vstd::utf8::encode_utf8(caller@)) is None,
            BuildError::InvalidContract { text } => contract_id_of(text@) is None,
            BuildError::UnknownDexType { dex_type } => dex_enum_value(dex_type@) is None,
            BuildError::SubRouteCountMismatch { sub_orders, step_sets } => sub_orders != step_sets,
            _ => true,
        },
{
    if amount_in <= 0 {
        return Err(BuildError::NonPositiveAmount);
    }
    if min_amount_out < amount_in {
        return Err(BuildError::MinBelowPrincipal);
    }
    if leg_out.sub_orders.len() == 0 || leg_back.sub_orders.len() == 0 {
        return Err(BuildError::EmptyLeg);
    }
    let caller_key = match decode_account_key(caller.as_bytes()) {
        Ok(k) => k,
        Err(_) => return Err(BuildError::InvalidAccount { text: caller.to_owned() }),
    };
    let vault_key = match vault {
        Some(v) => match decode_contract_id(v) {
            Ok(k) => Some(k),
            Err(_) => return Err(BuildError::InvalidContract { text: v.to_owned() }),
        },
        None => None,
    };
    let aggregator_key = match decode_contract_id(aggregator) {
        Ok(k) => k,
        Err(_) => return Err(BuildError::InvalidContract { text: aggregator.to_owned() }),
    };
    let base_key = match decode_contract_id(base) {
        Ok(k) => k,
        Err(_) => return Err(BuildError::InvalidContract { text: base.to_owned() }),
    };
    let bridge_key = match decode_contract_id(bridge) {
        Ok(k) => k,
        Err(_) => return Err(BuildError::InvalidContract { text: bridge.to_owned() }),
    };
    let mut out_inputs: Vec<u128> = Vec::new();
    let mut out_outputs: Vec<u128> = Vec::new();
    let mut i: usize = 0;
    while i < leg_out.sub_orders.len()
        invariant
            i <= leg_out.sub_orders@.len(),
            out_inputs@ == sub_order_inputs(*leg_out).take(i as int),
            out_outputs@ == sub_order_outputs(*leg_out).take(i as int),
        decreases leg_out.sub_orders.len() - i,
    {
        out_inputs.push(leg_out.sub_orders[i].amount_in);
        out_outputs.push(leg_out.sub_orders[i].expected_amount_out);
        proof {
            assert(out_inputs@ =~= sub_order_inputs(*leg_out).take(i + 1));
            assert(out_outputs@ =~= sub_order_outputs(*leg_out).take(i + 1));
        }
        i = i + 1;
    }
    let mut back_inputs: Vec<u128> = Vec::new();
    let mut i: usize = 0;
    while i < leg_back.sub_orders.len()
        invariant
            i <= leg_back.sub_orders@.len(),
            back_inputs@ == sub_order_inputs(*leg_back).take(i as int),
        decreases leg_back.sub_orders.len() - i,
    {
        back_inputs.push(leg_back.sub_orders[i].amount_in);
        proof {
            assert(back_inputs@ =~= sub_order_inputs(*leg_back).take(i + 1));
        }
        i = i + 1;
    }
    proof {
        assert(out_inputs@ =~= sub_order_inputs(*leg_out));
        assert(out_outputs@ =~= sub_order_outputs(*leg_out));
        assert(back_inputs@ =~= sub_order_inputs(*leg_back));
    }
    let (out_amounts, back_amounts) = prepare_round_trip_amounts(
        amount_in as u128,
        out_inputs.as_slice(),
        out_outputs.as_slice(),
        back_inputs.as_slice(),
    );
    proof {
        assert(back_amounts@ =~= Seq::new(
            leg_back.sub_orders@.len(),
            |i: int| back_weight(sub_order_outputs(*leg_out), sub_order_inputs(*leg_back), i),
        ));
    }
    let leg_out_call = match call_leg(leg_out, &out_amounts) {
        Ok(s) => s,
        Err(e) => return Err(e),
    };
    let leg_back_call = match call_leg(leg_back, &back_amounts) {
        Ok(s) => s,
        Err(e) => return Err(e),
    };
    Ok(
        RoundTripCall {
            vault: vault_key,
            aggregator: aggregator_key,
            caller: caller_key,
            base: base_key,
            bridge: bridge_key,
            amount_in,
            leg_out: leg_out_call,
            leg_back: leg_back_call,
            min_amount_out,
        },
    )
}

} // verus!
