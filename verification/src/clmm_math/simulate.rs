//! Off-chain simulation of an exact-input swap across initialized ticks.

use crate::clmm_math::swap::{ClmmPoolState, TickDataStore};
use crate::clmm_math::tick_math::tick_at_sqrt_ratio;
use crate::clmm_math::tick_math::tick_brackets;
use crate::clmm_math::{
    amount0_delta, compute_swap_step, max_sqrt_ratio, min_sqrt_ratio, mul_div_u128, q96, q96_u256, sqrt_ratio_at_tick,
    sqrt_ratio_value, swap_step_allowed, swap_step_result, SwapStep, MAX_TICK, MIN_TICK,
};
use crate::u256::{lemma_pow2_limb_values, u256_modulus, U256};
use vstd::arithmetic::div_mod::*;
use vstd::arithmetic::mul::*;
use vstd::prelude::*;

verus! {

/// Most ticks a simulation crosses before it stops.
pub const MAX_SWAP_ITERATIONS: u32 = 500;

/// The state of a simulated swap between two steps: the price, the current
/// tick and liquidity, the input left, the output so far, the steps taken,
/// and whether a step could not be carried out.
#[derive(Debug, Clone, Copy)]
pub struct SimState {
    pub price: U256,
    pub tick: i32,
    pub liquidity: u128,
    pub remaining: u128,
    pub calculated: u128,
    pub iterations: u32,
    pub failed: bool,
}

/// The price a swap may not pass: one above the lowest price for a
/// token0-in swap, one below the highest otherwise.
pub open spec fn price_limit_value(zero_for_one: bool) -> nat {
    if zero_for_one {
        4_295_128_740
    } else {
        0xfffd8963efd1fc6a506488495d951d5263988d25nat
    }
}

/// `a - b`, or 0.
pub open spec fn sat_sub_u128(a: u128, b: u128) -> u128 {
    if a >= b {
        (a - b) as u128
    } else {
        0
    }
}

/// `a + b`, or `u128::MAX`.
pub open spec fn sat_add_u128(a: u128, b: u128) -> u128 {
    if a + b > u128::MAX {
        u128::MAX
    } else {
        (a + b) as u128
    }
}

/// Liquidity after crossing a tick whose net liquidity is `net`: added when
/// the price moves up, taken off when it moves down, saturating.
pub open spec fn crossed_liquidity(liquidity: u128, net: i128, zero_for_one: bool) -> u128 {
    let directed: int = if zero_for_one {
        -net
    } else {
        net as int
    };
    if directed < 0 {
        sat_sub_u128(liquidity, (-directed) as u128)
    } else {
        sat_add_u128(liquidity, directed as u128)
    }
}

/// The current tick after crossing `next_tick`: one below it on the way
/// down, it on the way up, within the tick range.
pub open spec fn crossed_tick(next_tick: i32, zero_for_one: bool) -> i32 {
    if zero_for_one {
        if next_tick - 1 < MIN_TICK {
            MIN_TICK
        } else {
            (next_tick - 1) as i32
        }
    } else {
        if next_tick > MAX_TICK {
            MAX_TICK
        } else {
            next_tick
        }
    }
}

/// The simulation has stopped: a step failed, the input is spent, the price
/// limit is reached, or the steps are used up.
pub open spec fn sim_terminal(s: SimState, zero_for_one: bool) -> bool {
    s.failed || s.remaining == 0 || s.price@ == price_limit_value(zero_for_one) || s.iterations
        >= MAX_SWAP_ITERATIONS
}

/// The price target of a step: the next tick's price, not past the limit.
pub open spec fn step_target(next_price: nat, zero_for_one: bool) -> nat {
    let limit = price_limit_value(zero_for_one);
    if zero_for_one {
        if next_price < limit {
            limit
        } else {
            next_price
        }
    } else {
        if limit < next_price {
            limit
        } else {
            next_price
        }
    }
}

/// `t` follows `s` by one step that found `found` as the next tick and
/// computed `step` (`target` is the step's price target): the step moves
/// the price and counts its amounts; crossing an initialized tick applies
/// its net liquidity, otherwise a moved price sets the tick from the price.
/// A step fails where its arithmetic cannot be carried out, where a tick's
/// net liquidity cannot be negated, or where the price leaves the range.
pub open spec fn sim_step_via(
    pool: ClmmPoolState,
    ticks: TickDataStore,
    zero_for_one: bool,
    s: SimState,
    t: SimState,
    found: (i32, bool),
    target: U256,
    step: SwapStep,
) -> bool {
    let next_price = sqrt_ratio_value(found.0 as int);
    let rem = sat_sub_u128(sat_sub_u128(s.remaining, step.amount_in), step.fee_amount);
    let calc = sat_add_u128(s.calculated, step.amount_out);
    &&& ticks.find_tick_result(s.tick, pool.tick_spacing, zero_for_one, found)
    &&& MIN_TICK <= found.0 <= MAX_TICK
    &&& target@ == step_target(next_price, zero_for_one)
    &&& t.iterations == s.iterations + 1
    &&& if !swap_step_allowed(s.price@, target@, s.liquidity as nat, s.remaining, pool.fee_bps, zero_for_one, true) {
        t.failed
    } else {
        &&& swap_step_result(s.price, target, s.liquidity, s.remaining, pool.fee_bps, zero_for_one, true, step)
        &&& if step.sqrt_next@ == next_price && found.1 {
            let net = ticks.liquidity_net_at(found.0, pool.tick_spacing);
            if net == i128::MIN {
                t.failed
            } else {
                &&& !t.failed && t.price == step.sqrt_next && t.remaining == rem && t.calculated == calc
                &&& t.liquidity == crossed_liquidity(s.liquidity, net, zero_for_one)
                &&& t.tick == crossed_tick(found.0, zero_for_one)
            }
        } else if step.sqrt_next@ != pool.sqrt_price_x96@ {
            if step.sqrt_next@ < 4_295_128_739 || step.sqrt_next@ >= 0xfffd8963efd1fc6a506488495d951d5263988d26nat {
                t.failed
            } else {
                &&& !t.failed && t.price == step.sqrt_next && t.remaining == rem && t.calculated == calc
                &&& t.liquidity == s.liquidity && tick_brackets(t.tick as int, step.sqrt_next@)
            }
        } else {
            &&& !t.failed && t.price == step.sqrt_next && t.remaining == rem && t.calculated == calc
            &&& t.liquidity == s.liquidity && t.tick == s.tick
        }
    }
}

/// `t` follows `s` by one step of the simulation.
pub open spec fn sim_step(pool: ClmmPoolState, ticks: TickDataStore, zero_for_one: bool, s: SimState, t: SimState) -> bool {
    exists|found: (i32, bool), target: U256, step: SwapStep|
        #[trigger] sim_step_via(pool, ticks, zero_for_one, s, t, found, target, step)
}

/// Step `i` of a run is taken from a state that has not stopped.
pub open spec fn run_step_at(
    pool: ClmmPoolState,
    ticks: TickDataStore,
    zero_for_one: bool,
    trace: Seq<SimState>,
    i: int,
) -> bool {
    !sim_terminal(trace[i], zero_for_one) && sim_step(pool, ticks, zero_for_one, trace[i], trace[i + 1])
}

/// The state before the first step.
pub open spec fn initial_sim_state(pool: ClmmPoolState, amount_in: u128) -> SimState {
    SimState {
        price: pool.sqrt_price_x96,
        tick: pool.tick,
        liquidity: pool.liquidity,
        remaining: amount_in,
        calculated: 0,
        iterations: 0,
        failed: false,
    }
}

/// `trace` is a run of the simulation from the pool's state until it stops.
pub open spec fn sim_run(
    pool: ClmmPoolState,
    ticks: TickDataStore,
    amount_in: u128,
    zero_for_one: bool,
    trace: Seq<SimState>,
) -> bool {
    &&& trace.len() >= 1
    &&& trace[0] == initial_sim_state(pool, amount_in)
    &&& forall|i: int| 0 <= i < trace.len() - 1 ==> #[trigger] run_step_at(pool, ticks, zero_for_one, trace, i)
    &&& sim_terminal(trace.last(), zero_for_one)
}

/// What a stopped run gives: nothing when a step failed or nothing came
/// out, else the output, the price and the tick reached.
pub open spec fn sim_outcome(last: SimState, r: Option<(u128, U256, i32)>) -> bool {
    if last.failed || last.calculated == 0 {
        r is None
    } else {
        r == Some((last.calculated, last.price, last.tick))
    }
}

/// A swap of `token_in` sells token0 (and so moves the price down).
pub open spec fn sells_token0(token_in: Seq<char>, token0: Seq<char>) -> bool {
    token_in == token0
}

/// The output amount that a stopped run gives: nothing when a step failed
/// or nothing came out.
pub open spec fn sim_amount_outcome(last: SimState, r: Option<u128>) -> bool {
    if last.failed || last.calculated == 0 {
        r is None
    } else {
        r == Some(last.calculated)
    }
}

/// Whether an exact-input step can be computed: its price update, when it
/// needs one, has a nonzero denominator.
fn exact_input_step_allowed(
    current: &U256,
    target: &U256,
    liquidity: u128,
    amount_remaining: u128,
    fee_pips: u32,
    zero_for_one: bool,
) -> (r: bool)
    requires
        fee_pips <= 10_000,
    ensures
        r == swap_step_allowed(current@, target@, liquidity as nat, amount_remaining, fee_pips, zero_for_one, true),
{
    if liquidity == 0 || !zero_for_one {
        return true;
    }
    let budget = mul_div_u128(amount_remaining, (10_000 - fee_pips) as u128, 10_000, false);
    let covered = match amount0_delta(target, current, liquidity, true) {
        Some(a) => budget >= a,
        None => false,
    };
    if covered || budget == 0 {
        return true;
    }
    let n1 = U256::from_u128(liquidity).wrapping_mul(&q96_u256());
    let product = U256::from_u128(budget).wrapping_mul(current);
    let denominator = n1.wrapping_add(&product);
    proof {
        lemma_pow2_limb_values();
        lemma_mul_upper_bound(liquidity as int, u128::MAX as int, q96() as int, q96() as int);
        lemma_small_mod((liquidity as nat) * q96(), u256_modulus());
    }
    !denominator.is_zero()
}

/// Simulate a swap on a CLMM pool (exact input, zero_for_one or one_for_zero):
/// step from initialized tick to initialized tick, crossing each with its net
/// liquidity, until the input is spent, the price limit is reached, or
/// `MAX_SWAP_ITERATIONS` steps. Returns (amount_out, final_sqrt_price,
/// final_tick), or `None` when nothing comes out, and where a step's
/// arithmetic cannot be carried out. When the pool's tick sits at its price
/// (and a token0 input has room in 256 bits, see
/// `sim_direction_premises`), the price only moves in the swap's direction
/// and the tick returned sits at the price returned.
pub fn simulate_swap(pool: &ClmmPoolState, ticks: &TickDataStore, amount_in: u128, zero_for_one: bool) -> (r: Option<
    (u128, U256, i32),
>)
    requires
        ticks.well_formed(),
        pool.fee_bps <= 10_000,
        pool.tick_spacing != 0,
        !(pool.tick == i32::MIN && pool.tick_spacing == -1),
    ensures
        amount_in == 0 || pool.liquidity == 0 ==> r is None,
        amount_in != 0 && pool.liquidity != 0 ==> exists|trace: Seq<SimState>|
            #[trigger] sim_run(*pool, *ticks, amount_in, zero_for_one, trace) && sim_outcome(trace.last(), r),
        r matches Some((out, price, tick)) ==> out > 0,
        r matches Some((out, price, tick)) ==> (zero_for_one ==> price@ >= 4_295_128_740) && (!zero_for_one
            ==> price@ <= 0xfffd8963efd1fc6a506488495d951d5263988d25nat),
        sim_direction_premises(*pool, amount_in, zero_for_one) ==> (r matches Some((out, price, tick)) ==> {
            &&& zero_for_one ==> price@ <= pool.sqrt_price_x96@
            &&& !zero_for_one ==> price@ >= pool.sqrt_price_x96@
            &&& MIN_TICK <= tick <= MAX_TICK
            &&& sqrt_ratio_value(tick as int) <= price@
            &&& tick < MAX_TICK ==> price@ <= sqrt_ratio_value(tick + 1)
        }),
{
    if amount_in == 0 || pool.liquidity == 0 {
        return None;
    }
    let price_limit = if zero_for_one {
        min_sqrt_ratio().wrapping_add(&U256::one())
    } else {
        max_sqrt_ratio().wrapping_sub(&U256::one())
    };
    proof {
        lemma_pow2_limb_values();
        lemma_small_mod(4_295_128_740, u256_modulus());
    }
    let mut sqrt_price = pool.sqrt_price_x96;
    let mut tick = pool.tick;
    let mut liquidity = pool.liquidity;
    let mut amount_remaining = amount_in;
    let mut amount_calculated: u128 = 0;
    let mut iterations: u32 = 0;
    let mut moved = false;
    let ghost mut trace: Seq<SimState> = seq![initial_sim_state(*pool, amount_in)];
    proof {
        if sim_direction_premises(*pool, amount_in, zero_for_one) {
            lemma_sim_direction_start(*pool, amount_in, zero_for_one);
        }
    }
    while amount_remaining > 0 && !sqrt_price.equals(&price_limit)
        invariant
            ticks.well_formed(),
            pool.fee_bps <= 10_000,
            pool.tick_spacing != 0,
            !(tick == i32::MIN && pool.tick_spacing == -1),
            iterations <= MAX_SWAP_ITERATIONS,
            price_limit@ == price_limit_value(zero_for_one),
            moved && zero_for_one ==> sqrt_price@ >= price_limit@,
            moved && !zero_for_one ==> sqrt_price@ <= price_limit@,
            !moved ==> amount_calculated == 0,
            trace.len() >= 1,
            trace[0] == initial_sim_state(*pool, amount_in),
            forall|i: int| 0 <= i < trace.len() - 1 ==> #[trigger] run_step_at(*pool, *ticks, zero_for_one, trace, i),
            trace.last() == (SimState {
                price: sqrt_price,
                tick,
                liquidity,
                remaining: amount_remaining,
                calculated: amount_calculated,
                iterations,
                failed: false,
            }),
            sim_direction_premises(*pool, amount_in, zero_for_one) ==> sim_direction_inv(
                *pool,
                amount_in,
                zero_for_one,
                trace.last(),
            ),
        ensures
            trace.len() >= 1,
            trace[0] == initial_sim_state(*pool, amount_in),
            forall|i: int| 0 <= i < trace.len() - 1 ==> #[trigger] run_step_at(*pool, *ticks, zero_for_one, trace, i),
            trace.last() == (SimState {
                price: sqrt_price,
                tick,
                liquidity,
                remaining: amount_remaining,
                calculated: amount_calculated,
                iterations,
                failed: false,
            }),
            sim_terminal(trace.last(), zero_for_one),
            sim_direction_premises(*pool, amount_in, zero_for_one) ==> sim_direction_inv(
                *pool,
                amount_in,
                zero_for_one,
                trace.last(),
            ),
            moved && zero_for_one ==> sqrt_price@ >= price_limit@,
            moved && !zero_for_one ==> sqrt_price@ <= price_limit@,
            !moved ==> amount_calculated == 0,
        decreases MAX_SWAP_ITERATIONS - iterations,
    {
        if iterations >= MAX_SWAP_ITERATIONS {
            break;
        }
        let ghost s = trace.last();
        iterations = iterations + 1;
        let (next_tick, next_tick_initialized) = ticks.find_initialized_tick(tick, pool.tick_spacing, zero_for_one);
        let next_tick_price = sqrt_ratio_at_tick(next_tick);
        let sqrt_target = if zero_for_one {
            if next_tick_price.less_than(&price_limit) {
                price_limit
            } else {
                next_tick_price
            }
        } else {
            if price_limit.less_than(&next_tick_price) {
                price_limit
            } else {
                next_tick_price
            }
        };
        let ghost found = (next_tick, next_tick_initialized);
        if !exact_input_step_allowed(&sqrt_price, &sqrt_target, liquidity, amount_remaining, pool.fee_bps, zero_for_one) {
            proof {
                let t = SimState { iterations, failed: true, ..s };
                let st = SwapStep { sqrt_next: sqrt_target, amount_in: 0, amount_out: 0, fee_amount: 0 };
                assert(sim_step_via(*pool, *ticks, zero_for_one, s, t, found, sqrt_target, st));
                lemma_run_extends(*pool, *ticks, amount_in, zero_for_one, trace, t);
                assert(sim_outcome(trace.push(t).last(), None));
            }
            return None;
        }
        let step = compute_swap_step(
            &sqrt_price,
            &sqrt_target,
            liquidity,
            amount_remaining,
            pool.fee_bps,
            zero_for_one,
            true,
        );
        amount_remaining = amount_remaining.saturating_sub(step.amount_in).saturating_sub(step.fee_amount);
        amount_calculated = amount_calculated.saturating_add(step.amount_out);
        sqrt_price = step.sqrt_next;
        moved = true;
        if sqrt_price.equals(&next_tick_price) && next_tick_initialized {
            let tick_state = ticks.get_tick(next_tick, pool.tick_spacing);
            let liquidity_net = tick_state.liquidity_net;
            if liquidity_net == i128::MIN {
                proof {
                    let t = SimState { iterations, failed: true, ..s };
                    assert(sim_step_via(*pool, *ticks, zero_for_one, s, t, found, sqrt_target, step));
                    lemma_run_extends(*pool, *ticks, amount_in, zero_for_one, trace, t);
                    assert(sim_outcome(trace.push(t).last(), None));
                }
                return None;
            }
            let directed_net = if zero_for_one {
                -liquidity_net
            } else {
                liquidity_net
            };
            if directed_net < 0 {
                let dec = (-directed_net) as u128;
                liquidity = liquidity.saturating_sub(dec);
            } else {
                liquidity = liquidity.saturating_add(directed_net as u128);
            }
            tick = if zero_for_one {
                let below = next_tick - 1;
                if below < MIN_TICK {
                    MIN_TICK
                } else {
                    below
                }
            } else {
                if next_tick > MAX_TICK {
                    MAX_TICK
                } else {
                    next_tick
                }
            };
        } else if !sqrt_price.equals(&pool.sqrt_price_x96) {
            if sqrt_price.less_than(&min_sqrt_ratio()) || !sqrt_price.less_than(&max_sqrt_ratio()) {
                proof {
                    let t = SimState { iterations, failed: true, ..s };
                    assert(sim_step_via(*pool, *ticks, zero_for_one, s, t, found, sqrt_target, step));
                    lemma_run_extends(*pool, *ticks, amount_in, zero_for_one, trace, t);
                    assert(sim_outcome(trace.push(t).last(), None));
                }
                return None;
            }
            tick = tick_at_sqrt_ratio(&sqrt_price);
        }
        proof {
            let t = SimState {
                price: sqrt_price,
                tick,
                liquidity,
                remaining: amount_remaining,
                calculated: amount_calculated,
                iterations,
                failed: false,
            };
            assert(sim_step_via(*pool, *ticks, zero_for_one, s, t, found, sqrt_target, step));
            lemma_run_extends(*pool, *ticks, amount_in, zero_for_one, trace, t);
            if sim_direction_premises(*pool, amount_in, zero_for_one) {
                lemma_sim_direction_step(*pool, *ticks, amount_in, zero_for_one, s, t, found, sqrt_target, step);
            }
            trace = trace.push(t);
        }
    }
    proof {
        assert(sim_run(*pool, *ticks, amount_in, zero_for_one, trace));
    }
    if amount_calculated == 0 {
        return None;
    }
    Some((amount_calculated, sqrt_price, tick))
}

/// A run that has not stopped, extended by one step.
proof fn lemma_run_extends(
    pool: ClmmPoolState,
    ticks: TickDataStore,
    amount_in: u128,
    zero_for_one: bool,
    trace: Seq<SimState>,
    t: SimState,
)
    requires
        trace.len() >= 1,
        trace[0] == initial_sim_state(pool, amount_in),
        forall|i: int| 0 <= i < trace.len() - 1 ==> #[trigger] run_step_at(pool, ticks, zero_for_one, trace, i),
        !sim_terminal(trace.last(), zero_for_one),
        sim_step(pool, ticks, zero_for_one, trace.last(), t),
    ensures
        ({
            let next = trace.push(t);
            &&& next.len() >= 1
            &&& next[0] == initial_sim_state(pool, amount_in)
            &&& forall|i: int| 0 <= i < next.len() - 1 ==> #[trigger] run_step_at(pool, ticks, zero_for_one, next, i)
            &&& next.last() == t
            &&& t.failed ==> sim_run(pool, ticks, amount_in, zero_for_one, next)
        }),
{
    let next = trace.push(t);
    assert forall|i: int| 0 <= i < next.len() - 1 implies #[trigger] run_step_at(pool, ticks, zero_for_one, next, i) by {
        assert(next[i] == trace[i]);
        if i < trace.len() - 1 {
            assert(run_step_at(pool, ticks, zero_for_one, trace, i));
            assert(next[i + 1] == trace[i + 1]);
        } else {
            assert(next[i + 1] == t);
        }
    }
}


/// A search at or below a valid tick finds a tick at or below it; one above
/// it finds a tick above it, or the last tick.
proof fn lemma_found_tick_side(ticks: TickDataStore, tick: i32, spacing: i32, lte: bool, r: (i32, bool))
    requires
        spacing > 0,
        MIN_TICK <= tick <= MAX_TICK,
        ticks.find_tick_result(tick, spacing, lte, r),
        MIN_TICK <= r.0 <= MAX_TICK,
    ensures
        lte ==> r.0 <= tick,
        !lte ==> r.0 > tick || r.0 == MAX_TICK,
{
    let s = spacing as int;
    let compressed = crate::clmm_math::bitmap::compress_tick_value(tick as int, s);
    crate::clmm_math::bitmap::lemma_compress_bounds(tick as int, s);
    assert(compressed < i32::MAX) by (nonlinear_arith)
        requires
            compressed * s <= tick,
            tick <= 887_272,
            s >= 1,
    ;
    let start = if lte { compressed } else { compressed + 1 };
    let cp = start / 16;
    let word = cp / 256;
    if lte {
        let c: int = if r.1 {
            choose|c: int| c <= compressed && #[trigger] ticks.initialized(c)
                && r.0 == crate::clmm_math::swap::compressed_to_tick_value(c, s)
        } else {
            word * 4096
        };
        assert(c <= compressed);
        assert(c * s <= compressed * s) by (nonlinear_arith)
            requires
                c <= compressed,
                s > 0,
        ;
    } else {
        let c: int = if r.1 {
            choose|c: int| c >= start && #[trigger] ticks.initialized(c)
                && r.0 == crate::clmm_math::swap::compressed_to_tick_value(c, s)
        } else {
            word * 4096 + 4095
        };
        assert(c >= compressed + 1);
        assert(c * s >= (compressed + 1) * s) by (nonlinear_arith)
            requires
                c >= compressed + 1,
                s > 0,
        ;
    }
}


/// The token1 amount between two prices below 2^160 fits in 256 bits.
proof fn lemma_amount1_small(a: nat, b: nat, l: u128, round_up: bool)
    requires
        a < 0x1_0000_0000_0000_0000_0000_0000_0000_0000_0000_0000nat,
        b < 0x1_0000_0000_0000_0000_0000_0000_0000_0000_0000_0000nat,
    ensures
        crate::clmm_math::amount1_in_range(a, b, l as nat, round_up),
{
    let lo = crate::clmm_math::min_nat(a, b);
    let hi = crate::clmm_math::max_nat(a, b);
    let diff = (hi - lo) as nat;
    let p = (l as nat) * diff;
    lemma_mul_upper_bound(l as int, u128::MAX as int, diff as int, 0xffff_ffff_ffff_ffff_ffff_ffff_ffff_ffff_ffff_ffffint);
    assert((u128::MAX as int) * 0xffff_ffff_ffff_ffff_ffff_ffff_ffff_ffff_ffff_ffffint < 0x1_0000_0000_0000_0000_0000_0000_0000_0000_0000_0000_0000_0000_0000_0000_0000_0000_0000_0000int);
    let q = q96();
    assert(q == 0x1_0000_0000_0000_0000_0000_0000nat);
    lemma_div_is_ordered(p as int, 0x1_0000_0000_0000_0000_0000_0000_0000_0000_0000_0000_0000_0000_0000_0000_0000_0000_0000_0000int, q as int);
    assert((q as int) * 0x1_0000_0000_0000_0000_0000_0000_0000_0000_0000_0000_0000_0000int == 0x1_0000_0000_0000_0000_0000_0000_0000_0000_0000_0000_0000_0000_0000_0000_0000_0000_0000_0000int);
    lemma_div_multiples_vanish(0x1_0000_0000_0000_0000_0000_0000_0000_0000_0000_0000_0000_0000int, q as int);
    lemma_pow2_limb_values();
}

/// Every intermediate of an exact-input step between prices below 2^160,
/// toward a target on the swap's side, fits in 256 bits (for a token0
/// input, given room for the input times the price), and the step's own
/// bounds hold.
proof fn lemma_sim_step_in_range(cur: nat, target: nat, l: u128, rem: u128, fee: u32, zero_for_one: bool)
    requires
        l > 0,
        fee < 10_000,
        cur < 0x1_0000_0000_0000_0000_0000_0000_0000_0000_0000_0000nat,
        target < 0x1_0000_0000_0000_0000_0000_0000_0000_0000_0000_0000nat,
        zero_for_one ==> 0 < target <= cur && (l as nat) * q96() + (rem as nat) * cur < u256_modulus(),
        !zero_for_one ==> cur <= target,
    ensures
        crate::clmm_math::swap_step_in_range(cur, target, l as nat, rem, fee, zero_for_one, true),
        zero_for_one ==> (l as nat) * q96() + crate::clmm_math::less_fee(rem, fee) * cur < u256_modulus(),
        !zero_for_one ==> cur + ((crate::clmm_math::less_fee(rem, fee) as nat) * q96()) / (l as nat) < u256_modulus(),
{
    let ln = l as nat;
    let b = crate::clmm_math::less_fee(rem, fee);
    let q = q96();
    crate::clmm_math::lemma_less_fee_at_most(rem, fee);
    lemma_pow2_limb_values();
    let next = crate::clmm_math::exact_in_next(cur, target, ln, rem, fee, zero_for_one);
    let covered = crate::clmm_math::covers(crate::clmm_math::in_to_target(cur, target, ln, zero_for_one), b);
    if zero_for_one {
        assert(ln * q + (b as nat) * cur < u256_modulus()) by (nonlinear_arith)
            requires
                ln <= u128::MAX,
                b <= rem,
                ln * q + (rem as nat) * cur < u256_modulus(),
        ;
        if !covered {
            crate::clmm_math::lemma_zero_for_one_short_step(cur, target, ln, b);
            if b != 0 {
                let n1 = ln * q;
                let prod = (b as nat) * cur;
                lemma_small_mod(prod, u256_modulus());
                lemma_small_mod(n1 + prod, u256_modulus());
                let d = crate::clmm_math::next_price0_denominator(cur, ln, b as nat, true);
                assert(d == n1 + prod);
                assert(n1 > 0) by (nonlinear_arith)
                    requires
                        ln > 0,
                        n1 == ln * q,
                        q > 0,
                ;
                lemma_div_is_ordered_by_denominator((n1 * cur) as int, n1 as int, d);
                lemma_div_multiples_vanish(cur as int, n1 as int);
                lemma_mul_is_commutative(cur as int, n1 as int);
            }
        }
        lemma_amount1_small(next, cur, l, false);
    } else {
        assert(((b as nat) * q) / ln <= (b as nat) * q) by {
            lemma_div_is_ordered_by_denominator(((b as nat) * q) as int, 1, ln as int);
        }
        assert((b as nat) * q < 0x1_0000_0000_0000_0000_0000_0000_0000_0000_0000_0000_0000_0000_0000_0000_0000_0000_0000_0000_0000_0000_0000_0000int) by (nonlinear_arith)
            requires
                b <= u128::MAX,
                q == 0x1_0000_0000_0000_0000_0000_0000nat,
        ;
        let step = ((b as nat) * q) / ln;
        lemma_small_mod(cur + step, u256_modulus());
        assert(crate::clmm_math::next_price1_value(cur, ln, b as nat, true) == cur + step);
        assert(cur <= next <= target);
        lemma_amount1_small(cur, next, l, true);
        lemma_amount1_small(cur, target, l, true);
    }
}


/// What the price-direction law of a simulation asks of its start: a
/// positive tick spacing, a fee below 100%, the pool's tick at its price,
/// for a token0 input a price above the lowest one and room in 256 bits
/// for the input times the price next to any liquidity times 2^96.
pub open spec fn sim_direction_premises(pool: ClmmPoolState, amount_in: u128, zero_for_one: bool) -> bool {
    &&& pool.tick_spacing > 0
    &&& pool.fee_bps < 10_000
    &&& tick_brackets(pool.tick as int, pool.sqrt_price_x96@)
    &&& zero_for_one ==> pool.sqrt_price_x96@ > 4_295_128_739
    &&& zero_for_one ==> (u128::MAX as nat) * q96() + (amount_in as nat) * pool.sqrt_price_x96@ < u256_modulus()
}

/// What holds of every state of such a simulation: the tick lies at or
/// below the price (and the next tick at or above it), and the price lies
/// between the pool's price and the price limit.
pub open spec fn sim_direction_inv(pool: ClmmPoolState, amount_in: u128, zero_for_one: bool, s: SimState) -> bool {
    &&& MIN_TICK <= s.tick <= MAX_TICK
    &&& sqrt_ratio_value(s.tick as int) <= s.price@
    &&& s.tick < MAX_TICK ==> s.price@ <= sqrt_ratio_value(s.tick + 1)
    &&& zero_for_one ==> price_limit_value(true) <= s.price@ <= pool.sqrt_price_x96@
    &&& !zero_for_one ==> pool.sqrt_price_x96@ <= s.price@ <= price_limit_value(false)
    &&& s.remaining <= amount_in
}

/// The start of the simulation is such a state.
proof fn lemma_sim_direction_start(pool: ClmmPoolState, amount_in: u128, zero_for_one: bool)
    requires
        sim_direction_premises(pool, amount_in, zero_for_one),
    ensures
        sim_direction_inv(pool, amount_in, zero_for_one, initial_sim_state(pool, amount_in)),
{
    crate::clmm_math::lemma_sqrt_ratio_at_ends();
    crate::clmm_math::lemma_sqrt_ratio_monotone(pool.tick as int + 1, MAX_TICK as int);
}

/// One step of such a simulation that does not fail keeps its states so.
proof fn lemma_sim_direction_step(
    pool: ClmmPoolState,
    ticks: TickDataStore,
    amount_in: u128,
    zero_for_one: bool,
    s: SimState,
    t: SimState,
    found: (i32, bool),
    target: U256,
    step: SwapStep,
)
    requires
        sim_direction_premises(pool, amount_in, zero_for_one),
        sim_direction_inv(pool, amount_in, zero_for_one, s),
        !sim_terminal(s, zero_for_one),
        sim_step_via(pool, ticks, zero_for_one, s, t, found, target, step),
        !t.failed,
    ensures
        sim_direction_inv(pool, amount_in, zero_for_one, t),
{
    let cur = s.price@;
    let np = sqrt_ratio_value(found.0 as int);
    crate::clmm_math::lemma_sqrt_ratio_at_ends();
    crate::clmm_math::lemma_sqrt_ratio_monotone(pool.tick as int + 1, MAX_TICK as int);
    lemma_found_tick_side(ticks, s.tick, pool.tick_spacing, zero_for_one, found);
    crate::clmm_math::lemma_sqrt_ratio_monotone(found.0 as int, MAX_TICK as int);
    crate::clmm_math::lemma_sqrt_ratio_monotone(MIN_TICK as int, found.0 as int);
    if zero_for_one {
        crate::clmm_math::lemma_sqrt_ratio_monotone(found.0 as int, s.tick as int);
        assert(target@ <= cur);
    } else {
        if found.0 > s.tick {
            crate::clmm_math::lemma_sqrt_ratio_monotone(s.tick + 1, found.0 as int);
        }
        assert(target@ >= cur);
    }
    let l = s.liquidity;
    if zero_for_one {
        assert((s.remaining as nat) * cur <= (amount_in as nat) * pool.sqrt_price_x96@) by (nonlinear_arith)
            requires
                s.remaining <= amount_in,
                cur <= pool.sqrt_price_x96@,
        ;
    }
    if zero_for_one {
        assert((l as nat) * q96() <= (u128::MAX as nat) * q96()) by (nonlinear_arith)
            requires
                l <= u128::MAX,
        ;
    }
    if l > 0 {
        lemma_sim_step_in_range(cur, target@, l, s.remaining, pool.fee_bps, zero_for_one);
        crate::clmm_math::lemma_exact_input_step_range(s.price, target, l, s.remaining, pool.fee_bps, zero_for_one, step);
    }
    let p = step.sqrt_next@;
    if zero_for_one {
        assert(target@ <= p <= cur);
    } else {
        assert(cur <= p <= target@);
    }
    if p == np && found.1 {
        if zero_for_one {
            crate::clmm_math::lemma_sqrt_ratio_monotone(t.tick as int, found.0 as int);
            crate::clmm_math::lemma_sqrt_ratio_monotone(found.0 as int, t.tick + 1);
        } else {
            if found.0 < MAX_TICK {
                crate::clmm_math::lemma_sqrt_ratio_monotone(found.0 as int, found.0 + 1);
            }
        }
    }
}


/// An exact-input swap step between valid prices, toward a target on the
/// swap's side, moves the price from the current one toward the target
/// without passing it, and takes at most the remaining input counting its
/// fee, all of it when it stops short of the target. For a token0 input
/// the remaining input times the price, next to the liquidity times 2^96,
/// must fit in 256 bits: beyond that the price update wraps, as on chain.
pub proof fn lemma_swap_step_bounds(
    current: U256,
    target: U256,
    liquidity: u128,
    amount_remaining: u128,
    fee_pips: u32,
    zero_for_one: bool,
    step: SwapStep,
)
    requires
        swap_step_result(current, target, liquidity, amount_remaining, fee_pips, zero_for_one, true, step),
        liquidity > 0,
        fee_pips < 10_000,
        4_295_128_739 <= current@ < 0xfffd8963efd1fc6a506488495d951d5263988d26nat,
        4_295_128_739 <= target@ < 0xfffd8963efd1fc6a506488495d951d5263988d26nat,
        zero_for_one ==> target@ <= current@ && (liquidity as nat) * q96() + (amount_remaining as nat) * current@
            < u256_modulus(),
        !zero_for_one ==> current@ <= target@,
    ensures
        zero_for_one ==> target@ <= step.sqrt_next@ <= current@,
        !zero_for_one ==> current@ <= step.sqrt_next@ <= target@,
        step.amount_in + step.fee_amount <= amount_remaining,
        step.sqrt_next@ != target@ ==> step.amount_in + step.fee_amount == amount_remaining,
{
    lemma_sim_step_in_range(current@, target@, liquidity, amount_remaining, fee_pips, zero_for_one);
    crate::clmm_math::lemma_exact_input_step_range(
        current,
        target,
        liquidity,
        amount_remaining,
        fee_pips,
        zero_for_one,
        step,
    );
}


/// An exact-output swap step between valid prices, toward a target on the
/// swap's side, moves the price from the current one toward the target
/// without passing it and gives out at most the amount asked for. For a
/// token0 output the price update must stay within 256 bits (beyond that
/// it wraps, as on chain).
pub proof fn lemma_swap_step_output_bounds(
    current: U256,
    target: U256,
    liquidity: u128,
    amount_remaining: u128,
    fee_pips: u32,
    zero_for_one: bool,
    step: SwapStep,
)
    requires
        swap_step_allowed(current@, target@, liquidity as nat, amount_remaining, fee_pips, zero_for_one, false),
        swap_step_result(current, target, liquidity, amount_remaining, fee_pips, zero_for_one, false, step),
        liquidity > 0,
        4_295_128_739 <= current@ < 0xfffd8963efd1fc6a506488495d951d5263988d26nat,
        4_295_128_739 <= target@ < 0xfffd8963efd1fc6a506488495d951d5263988d26nat,
        zero_for_one ==> target@ <= current@,
        !zero_for_one ==> current@ <= target@ && crate::clmm_math::next_price0_in_range(
            current@,
            liquidity as nat,
            amount_remaining as nat,
            false,
        ) && crate::clmm_math::next_price0_fits(current@, liquidity as nat, amount_remaining as nat, false),
    ensures
        zero_for_one ==> target@ <= step.sqrt_next@ <= current@,
        !zero_for_one ==> current@ <= step.sqrt_next@ <= target@,
        step.amount_out <= amount_remaining,
{
    let cur = current@;
    let tgt = target@;
    let l = liquidity as nat;
    let next = crate::clmm_math::exact_out_next(cur, tgt, l, amount_remaining, zero_for_one);
    let covered = crate::clmm_math::covers(crate::clmm_math::out_to_target(cur, tgt, l, zero_for_one), amount_remaining);
    if zero_for_one {
        assert(tgt <= next <= cur);
        lemma_amount1_small(next, cur, liquidity, false);
        lemma_amount1_small(tgt, cur, liquidity, false);
    } else {
        if !covered {
            crate::clmm_math::lemma_price0_out_not_below(cur, l, amount_remaining as nat);
        }
        assert(cur <= next <= tgt);
        lemma_amount1_small(cur, next, liquidity, true);
    }
    assert(crate::clmm_math::swap_step_in_range(cur, tgt, l, amount_remaining, fee_pips, zero_for_one, false));
    crate::clmm_math::lemma_exact_output_step_range(
        current,
        target,
        liquidity,
        amount_remaining,
        fee_pips,
        zero_for_one,
        step,
    );
}

} // verus!
