//! The arguments of the round-trip contract call as Soroban values: the
//! call's layout, which the transaction builder turns into XDR.

use vstd::prelude::*;

use crate::round_trip::{CallStep, CallSubRoute, RoundTripCall};

verus! {

/// A Soroban value of the kinds a contract call here passes.
#[derive(Debug)]
pub enum CallValue {
    Symbol(String),
    Contract([u8; 32]),
    Account([u8; 32]),
    U32(u32),
    I128 { hi: i64, lo: u64 },
    List(Vec<CallValue>),
    Entries(Vec<(String, CallValue)>),
}

/// `v` is the 128-bit integer `x`, in its high and low 64-bit halves.
pub open spec fn is_i128_value(v: CallValue, x: int) -> bool {
    v matches CallValue::I128 { hi, lo } && hi * 0x1_0000_0000_0000_0000int + lo == x
}

/// A 128-bit integer as a value: its high half (signed) and low half.
pub fn i128_value(x: i128) -> (r: CallValue)
    ensures
        is_i128_value(r, x as int),
{
    let hi: i64 = (x >> 64u32) as i64;
    let lo: u64 = x as u64;
    assert(hi as i128 * 0x1_0000_0000_0000_0000i128 + lo as i128 == x) by (bit_vector)
        requires
            hi == (x >> 64u32) as i64,
            lo == x as u64,
    ;
    CallValue::I128 { hi, lo }
}


/// `v` is the map of `(key, value)` entries whose keys are `keys`, in order.
pub open spec fn entries_keyed(v: CallValue, keys: Seq<Seq<char>>) -> bool {
    v matches CallValue::Entries(es) && es@.len() == keys.len() && forall|k: int|
        0 <= k < keys.len() ==> (#[trigger] es@[k]).0@ == keys[k]
}

/// The value of entry `k` of a map.
pub open spec fn entry_value(v: CallValue, k: int) -> CallValue {
    match v {
        CallValue::Entries(es) => es@[k].1,
        _ => v,
    }
}

/// The items of a list (none for anything else).
pub open spec fn list_items(v: CallValue) -> Seq<CallValue> {
    match v {
        CallValue::List(items) => items@,
        _ => Seq::empty(),
    }
}

/// The keys of a swap step, in the order the contract's map takes them.
pub open spec fn step_keys() -> Seq<Seq<char>> {
    seq!["dex_id"@, "dex_type"@, "in_idx"@, "out_idx"@, "token_in"@, "token_out"@]
}

/// The keys of a sub-route.
pub open spec fn sub_route_keys() -> Seq<Seq<char>> {
    seq!["amount_in"@, "steps"@]
}

/// `v` is a swap step: its pool, its dex as a one-symbol enum, the token
/// indices and the two tokens.
pub open spec fn is_step_value(v: CallValue, step: CallStep) -> bool {
    &&& entries_keyed(v, step_keys())
    &&& entry_value(v, 0) == CallValue::Contract(step.pool)
    &&& entry_value(v, 1) is List
    &&& list_items(entry_value(v, 1)).len() == 1
    &&& list_items(entry_value(v, 1))[0] matches CallValue::Symbol(name) && name@ == step.dex_enum@
    &&& entry_value(v, 2) == CallValue::U32(step.in_idx)
    &&& entry_value(v, 3) == CallValue::U32(step.out_idx)
    &&& entry_value(v, 4) == CallValue::Contract(step.token_in)
    &&& entry_value(v, 5) == CallValue::Contract(step.token_out)
}

/// `v` is a sub-route: its input (as the contract's signed 128-bit amount)
/// and the list of its steps.
pub open spec fn is_sub_route_value(v: CallValue, sub: CallSubRoute) -> bool {
    &&& entries_keyed(v, sub_route_keys())
    &&& is_i128_value(entry_value(v, 0), (sub.amount_in as i128) as int)
    &&& entry_value(v, 1) is List
    &&& list_items(entry_value(v, 1)).len() == sub.steps@.len()
    &&& forall|j: int|
        0 <= j < sub.steps@.len() ==> is_step_value(#[trigger] list_items(entry_value(v, 1))[j], sub.steps@[j])
}

/// `v` is a leg: the list of its sub-routes.
pub open spec fn is_leg_value(v: CallValue, subs: Seq<CallSubRoute>) -> bool {
    &&& v is List
    &&& list_items(v).len() == subs.len()
    &&& forall|k: int| 0 <= k < subs.len() ==> is_sub_route_value(#[trigger] list_items(v)[k], subs[k])
}

fn symbol(name: &str) -> (r: CallValue)
    ensures
        r matches CallValue::Symbol(s) && s@ == name@,
{
    CallValue::Symbol(name.to_string())
}

/// A swap step as a value.
pub fn step_value(step: &CallStep) -> (r: CallValue)
    ensures
        is_step_value(r, *step),
{
    let dex = CallValue::List(vec![symbol(step.dex_enum.as_str())]);
    let es = vec![
        ("dex_id".to_string(), CallValue::Contract(step.pool)),
        ("dex_type".to_string(), dex),
        ("in_idx".to_string(), CallValue::U32(step.in_idx)),
        ("out_idx".to_string(), CallValue::U32(step.out_idx)),
        ("token_in".to_string(), CallValue::Contract(step.token_in)),
        ("token_out".to_string(), CallValue::Contract(step.token_out)),
    ];
    let r = CallValue::Entries(es);
    proof {
        reveal_strlit("dex_id");
        reveal_strlit("dex_type");
        reveal_strlit("in_idx");
        reveal_strlit("out_idx");
        reveal_strlit("token_in");
        reveal_strlit("token_out");
        assert(entries_keyed(r, step_keys()));
    }
    r
}

/// A sub-route as a value.
pub fn sub_route_value(sub: &CallSubRoute) -> (r: CallValue)
    ensures
        is_sub_route_value(r, *sub),
{
    let mut steps: Vec<CallValue> = Vec::new();
    let mut j: usize = 0;
    while j < sub.steps.len()
        invariant
            j <= sub.steps@.len(),
            steps@.len() == j,
            forall|i: int| 0 <= i < j ==> is_step_value(#[trigger] steps@[i], sub.steps@[i]),
        decreases sub.steps.len() - j,
    {
        steps.push(step_value(&sub.steps[j]));
        j = j + 1;
    }
    let es = vec![
        ("amount_in".to_string(), i128_value(sub.amount_in as i128)),
        ("steps".to_string(), CallValue::List(steps)),
    ];
    let r = CallValue::Entries(es);
    proof {
        reveal_strlit("amount_in");
        reveal_strlit("steps");
        assert(entries_keyed(r, sub_route_keys()));
    }
    r
}

/// A leg as a value: the list of its sub-routes.
pub fn leg_value(subs: &[CallSubRoute]) -> (r: CallValue)
    ensures
        is_leg_value(r, subs@),
{
    let mut items: Vec<CallValue> = Vec::new();
    let mut k: usize = 0;
    while k < subs.len()
        invariant
            k <= subs@.len(),
            items@.len() == k,
            forall|i: int| 0 <= i < k ==> is_sub_route_value(#[trigger] items@[i], subs@[i]),
        decreases subs.len() - k,
    {
        items.push(sub_route_value(&subs[k]));
        k = k + 1;
    }
    CallValue::List(items)
}

/// A contract invocation: the contract, the function and the arguments.
#[derive(Debug)]
pub struct Invocation {
    pub contract: [u8; 32],
    pub function: String,
    pub args: Vec<CallValue>,
}

/// The round-trip invocation: through the vault, its `execute_round_trip`
/// with the aggregator after the caller; else the aggregator's
/// `round_trip_swap`. The arguments follow: the caller's account, the base
/// and bridge tokens, the input, the two legs and the minimum output.
pub fn round_trip_invocation(call: &RoundTripCall) -> (r: Invocation)
    ensures
        ({
            let shift: int = if call.vault is Some { 1 } else { 0 };
            &&& call.vault matches Some(v) ==> r.contract == v && r.function@ == "execute_round_trip"@
                && r.args@[1] == CallValue::Contract(call.aggregator)
            &&& call.vault is None ==> r.contract == call.aggregator && r.function@ == "round_trip_swap"@
            &&& r.args@.len() == 7 + shift
            &&& r.args@[0] == CallValue::Account(call.caller)
            &&& r.args@[1 + shift] == CallValue::Contract(call.base)
            &&& r.args@[2 + shift] == CallValue::Contract(call.bridge)
            &&& is_i128_value(r.args@[3 + shift], call.amount_in as int)
            &&& is_leg_value(r.args@[4 + shift], call.leg_out@)
            &&& is_leg_value(r.args@[5 + shift], call.leg_back@)
            &&& is_i128_value(r.args@[6 + shift], call.min_amount_out as int)
        }),
{
    let mut args: Vec<CallValue> = vec![CallValue::Account(call.caller)];
    let (contract, function) = match call.vault {
        Some(vault) => {
            args.push(CallValue::Contract(call.aggregator));
            (vault, "execute_round_trip".to_string())
        },
        None => (call.aggregator, "round_trip_swap".to_string()),
    };
    args.push(CallValue::Contract(call.base));
    args.push(CallValue::Contract(call.bridge));
    args.push(i128_value(call.amount_in));
    args.push(leg_value(call.leg_out.as_slice()));
    args.push(leg_value(call.leg_back.as_slice()));
    args.push(i128_value(call.min_amount_out));
    Invocation { contract, function, args }
}

} // verus!
