//! The tick of a square-root price: a fixed-point binary logarithm turned
//! into two candidate ticks, settled by one exact comparison.

use crate::clmm_math::{max_sqrt_ratio, min_sqrt_ratio, sqrt_ratio_at_tick, sqrt_ratio_value, MAX_TICK, MIN_TICK};
use crate::u256::{lemma_pow2_limb_values, u256_modulus, U256};
use vstd::arithmetic::div_mod::*;
use vstd::arithmetic::mul::*;
use vstd::arithmetic::power2::*;
use vstd::prelude::*;

verus! {

/// log2(sqrt(1.0001)) in Q64.64, times 2^64 more (Q128.128 once multiplied
/// by a Q64.64 logarithm).
pub const LOG_SQRT10001: u128 = 255_738_958_999_603_826_347_141;

/// Error bound below the estimate.
pub const TICK_LOW_ERROR: u128 = 3_402_992_956_809_132_418_596_140_100_660_247_210;

/// Error bound above the estimate.
pub const TICK_HI_ERROR: u128 = 291_339_464_771_989_622_907_027_621_153_398_088_495;

/// `floor(log2(x))` (0 for 0 and 1).
pub open spec fn floor_log2(x: nat) -> nat
    decreases x,
{
    if x < 2 {
        0
    } else {
        1 + floor_log2(x / 2)
    }
}

/// One squaring of a value in [2^127, 2^128) read as a number in [1, 2):
/// whether the square reaches 2, and the square brought back into range.
pub open spec fn log_step(r: nat) -> (bool, nat) {
    let sq = r * r;
    if sq >= pow2(255) {
        (true, sq / pow2(128))
    } else {
        (false, sq / pow2(127))
    }
}

/// The fraction bits at positions `pos` down to `stop` of log2 of `r`
/// (read as a number in [1, 2)), found by repeated squaring.
pub open spec fn log_fraction(r: nat, pos: nat, stop: nat) -> int
    decreases pos,
{
    if pos < stop {
        0
    } else {
        let (f, next) = log_step(r);
        (if f {
            pow2(pos) as int
        } else {
            0
        }) + (if pos == 0 {
            0
        } else {
            log_fraction(next, (pos - 1) as nat, stop)
        })
    }
}

/// `price * 2^32` (the price as Q128.128).
pub open spec fn q128_ratio(price: nat) -> nat {
    price * pow2(32)
}

/// The ratio scaled into [2^127, 2^128).
pub open spec fn normalized_ratio(price: nat) -> nat {
    let ratio = q128_ratio(price);
    let msb = floor_log2(ratio);
    if msb >= 127 {
        ratio / pow2((msb - 127) as nat)
    } else {
        ratio * pow2((127 - msb) as nat)
    }
}

/// log2 of the Q128.128 ratio in Q64.64: the integer part from the top bit,
/// then fourteen fraction bits (positions 63 down to 50).
pub open spec fn log2_q64(price: nat) -> int {
    (floor_log2(q128_ratio(price)) - 128) * pow2(64) + log_fraction(normalized_ratio(price), 63, 50)
}

/// The two candidate ticks: the logarithm in base sqrt(1.0001), less and
/// plus its error bound, rounded down.
pub open spec fn tick_candidates(price: nat) -> (int, int) {
    let x = log2_q64(price) * LOG_SQRT10001;
    ((x - TICK_LOW_ERROR) / (pow2(128) as int), (x + TICK_HI_ERROR) / (pow2(128) as int))
}

/// The tick of a price: the lower candidate, unless the upper one differs,
/// is a valid tick, and its square-root price does not exceed the price.
pub open spec fn tick_at_value(price: nat) -> int {
    let (lo, hi) = tick_candidates(price);
    if lo == hi {
        lo
    } else if MIN_TICK <= hi <= MAX_TICK && sqrt_ratio_value(hi) <= price {
        hi
    } else {
        lo
    }
}

proof fn lemma_floor_log2(x: nat, k: nat)
    requires
        pow2(k) <= x < pow2(k + 1),
    ensures
        floor_log2(x) == k,
    decreases k,
{
    lemma_pow2_unfold(k + 1);
    if k > 0 {
        lemma_pow2_unfold(k);
        lemma_pow2_pos((k - 1) as nat);
        lemma_div_is_ordered(pow2(k) as int, x as int, 2);
        assert(pow2(k) / 2 == pow2((k - 1) as nat));
        lemma_div_by_multiple_is_strongly_ordered(x as int, pow2(k + 1) as int, pow2(k) as int, 2);
        lemma_floor_log2(x / 2, (k - 1) as nat);
    } else {
        assert(pow2(0) == 1) by {
            lemma2_to64();
        }
    }
}

/// `a * b` as its high and low 128-bit halves.
fn widening_mul_u128(a: u128, b: u128) -> (res: (u128, u128))
    ensures
        res.0 * pow2(128) + res.1 == a * b,
{
    let p = U256::from_u128(a).wrapping_mul(&U256::from_u128(b));
    let hi_u = p.shr(128);
    let lo_u = p.wrapping_sub(&hi_u.shl(128));
    proof {
        lemma_pow2_limb_values();
        let m: int = 0x1_0000_0000_0000_0000_0000_0000_0000_0000int;
        assert(0 <= a * b <= (m - 1) * (m - 1)) by (nonlinear_arith)
            requires
                0 <= a < m,
                0 <= b < m,
        ;
        assert((m - 1) * (m - 1) < u256_modulus());
        lemma_small_mod((a * b) as nat, u256_modulus());
        assert(p@ == a * b);
        lemma_pow2_pos(128);
        lemma_fundamental_div_mod(p@ as int, m);
        assert(hi_u@ == p@ / (m as nat));
        assert(hi_u@ < m) by {
            lemma_div_by_multiple_is_strongly_ordered(p@ as int, m * m, m, m);
        }
        assert(hi_u@ * m < u256_modulus()) by (nonlinear_arith)
            requires
                hi_u@ < m,
                m == 0x1_0000_0000_0000_0000_0000_0000_0000_0000int,
                u256_modulus() == m * m,
        ;
        lemma_small_mod((hi_u@ * m) as nat, u256_modulus());
        assert(p@ % (m as nat) < m) by {
            lemma_mod_bound(p@ as int, m);
        }
    }
    let hi = hi_u.to_u128().unwrap();
    let lo = lo_u.to_u128().unwrap();
    (hi, lo)
}

/// `price` lies at or above the square-root price of `tick` and below that
/// of the next tick, within the tick range.
pub open spec fn tick_brackets(tick: int, price: nat) -> bool {
    &&& MIN_TICK <= tick < MAX_TICK
    &&& sqrt_ratio_value(tick) <= price < sqrt_ratio_value(tick + 1)
}

/// At most one tick brackets a price.
pub proof fn lemma_tick_brackets_unique(t1: int, t2: int, price: nat)
    requires
        tick_brackets(t1, price),
        tick_brackets(t2, price),
    ensures
        t1 == t2,
{
    if t1 < t2 {
        crate::clmm_math::lemma_sqrt_ratio_monotone(t1 + 1, t2);
    } else if t2 < t1 {
        crate::clmm_math::lemma_sqrt_ratio_monotone(t2 + 1, t1);
    }
}

/// The price of a tick below the last one is bracketed by that tick and no
/// other: the tick of a tick's price is the tick itself.
pub proof fn lemma_tick_round_trip(t: int)
    requires
        MIN_TICK <= t < MAX_TICK,
    ensures
        tick_brackets(t, sqrt_ratio_value(t)),
        forall|r: int| #[trigger] tick_brackets(r, sqrt_ratio_value(t)) ==> r == t,
{
    crate::clmm_math::lemma_sqrt_ratio_strict(t);
    assert forall|r: int| #[trigger] tick_brackets(r, sqrt_ratio_value(t)) implies r == t by {
        lemma_tick_brackets_unique(r, t, sqrt_ratio_value(t));
    }
}

/// Tick of a square-root price: the tick whose square-root price is at or
/// below it while the next tick's is above it (there is one such tick, see
/// `lemma_tick_brackets_unique`). The pool contract's estimate from a
/// fixed-point logarithm is taken when it brackets the price; should it
/// not, a bisection over the tick range finds the tick.
pub fn tick_at_sqrt_ratio(sqrt_price_x96: &U256) -> (r: i32)
    requires
        4_295_128_739 <= sqrt_price_x96@ < 0xfffd8963efd1fc6a506488495d951d5263988d26nat,
    ensures
        tick_brackets(r as int, sqrt_price_x96@),
        tick_brackets(tick_at_value(sqrt_price_x96@), sqrt_price_x96@) ==> r == tick_at_value(sqrt_price_x96@),
{
    let t = tick_estimate(sqrt_price_x96);
    if MIN_TICK <= t && t < MAX_TICK {
        if !sqrt_price_x96.less_than(&sqrt_ratio_at_tick(t)) && sqrt_price_x96.less_than(&sqrt_ratio_at_tick(t + 1)) {
            return t;
        }
    }
    tick_by_bisection(sqrt_price_x96)
}

/// The bracketing tick of a valid price, by bisection over the tick range.
fn tick_by_bisection(sqrt_price_x96: &U256) -> (r: i32)
    requires
        4_295_128_739 <= sqrt_price_x96@ < 0xfffd8963efd1fc6a506488495d951d5263988d26nat,
    ensures
        tick_brackets(r as int, sqrt_price_x96@),
{
    proof {
        crate::clmm_math::lemma_sqrt_ratio_at_ends();
    }
    let mut lo: i32 = MIN_TICK;
    let mut hi: i32 = MAX_TICK;
    while hi - lo > 1
        invariant
            MIN_TICK <= lo < hi <= MAX_TICK,
            sqrt_ratio_value(lo as int) <= sqrt_price_x96@ < sqrt_ratio_value(hi as int),
        decreases hi - lo,
    {
        let mid: i32 = lo + (hi - lo) / 2;
        if sqrt_price_x96.less_than(&sqrt_ratio_at_tick(mid)) {
            hi = mid;
        } else {
            lo = mid;
        }
    }
    lo
}

/// The logarithm estimate of the tick: the lower candidate, unless the upper
/// one differs and its exact square-root price does not exceed the price.
fn tick_estimate(sqrt_price_x96: &U256) -> (r: i32)
    requires
        4_295_128_739 <= sqrt_price_x96@ < 0xfffd8963efd1fc6a506488495d951d5263988d26nat,
    ensures
        r == tick_at_value(sqrt_price_x96@),
        -0x20_0000 <= r <= 0x20_0000,
{
    let ghost price = sqrt_price_x96@;
    let ratio = sqrt_price_x96.shl(32);
    proof {
        lemma_pow2_limb_values();
        assert(price * pow2(32) < u256_modulus());
        lemma_small_mod(price * pow2(32), u256_modulus());
        assert(ratio@ == q128_ratio(price));
    }
    let bits = ratio.bit_length();
    proof {
        assert(ratio@ != 0);
        if bits < 64 {
            lemma_pow2_strictly_increases(bits as nat, 64);
        }
        if bits > 193 {
            lemma_pow2_strictly_increases(192, (bits - 1) as nat);
        }
    }
    let msb: u32 = bits - 1;
    proof {
        lemma_floor_log2(ratio@, msb as nat);
    }
    let normalized = if msb >= 127 {
        ratio.shr(msb - 127)
    } else {
        ratio.shl(127 - msb)
    };
    proof {
        if msb >= 127 {
            lemma_pow2_pos((msb - 127) as nat);
            lemma_pow2_adds(128, (msb - 127) as nat);
            assert(128 + (msb - 127) as nat == msb as nat + 1);
            assert(ratio@ < pow2(msb as nat + 1));
            lemma_div_by_multiple_is_strongly_ordered(
                ratio@ as int,
                pow2(msb as nat + 1) as int,
                pow2(128) as int,
                pow2((msb - 127) as nat) as int,
            );
            lemma_div_multiples_vanish(pow2(128) as int, pow2((msb - 127) as nat) as int);
            assert(normalized@ < pow2(128));
        } else {
            lemma_pow2_adds(msb as nat + 1, (127 - msb) as nat);
            assert(msb as nat + 1 + (127 - msb) as nat == 128);
            lemma_mul_strict_inequality(ratio@ as int, pow2(msb as nat + 1) as int, pow2((127 - msb) as nat) as int);
            lemma_pow2_strictly_increases(128, 256);
            assert(ratio@ < pow2(msb as nat + 1));
            assert(ratio@ * pow2((127 - msb) as nat) < pow2(128));
            lemma_small_mod(ratio@ * pow2((127 - msb) as nat), u256_modulus());
            assert(normalized@ < pow2(128));
        }
        assert(normalized@ == normalized_ratio(price));
        assert(normalized@ < pow2(128));
    }
    let mut r: u128 = normalized.to_u128().unwrap();
    let mut log_2: i128 = (msb as i128 - 128) * 0x1_0000_0000_0000_0000i128;
    let mut bit_pos: u32 = 63;
    let mut step: i128 = 0x8000_0000_0000_0000i128;
    proof {
        assert(pow2(63) == 0x8000_0000_0000_0000) by {
            lemma2_to64();
            lemma2_to64_rest();
        }
    }
    proof {
        lemma_log_pow_values();
    }
    while bit_pos >= 50
        invariant
            49 <= bit_pos <= 63,
            step == pow2(bit_pos as nat),
            log2_q64(price) == log_2 + log_fraction(r as nat, bit_pos as nat, 50),
            (msb as int - 128) * 0x1_0000_0000_0000_0000 <= log_2 <= (msb as int - 128) * 0x1_0000_0000_0000_0000
                + 0x1_0000_0000_0000_0000 - 2 * step,
            64 <= msb <= 191,
            pow2(127) == 0x8000_0000_0000_0000_0000_0000_0000_0000nat,
            pow2(128) == 0x1_0000_0000_0000_0000_0000_0000_0000_0000nat,
            pow2(255) == pow2(127) * pow2(128),
        decreases bit_pos,
    {
        let ghost old_r = r;
        let (sq_hi, sq_lo) = widening_mul_u128(r, r);
        proof {
            lemma_pow2_unfold(bit_pos as nat);
            lemma_pow2_pos((bit_pos - 1) as nat);
        }
        if sq_hi >= 0x8000_0000_0000_0000_0000_0000_0000_0000u128 {
            log_2 = log_2 + step;
            r = sq_hi;
            proof {
                lemma_log_step_high(old_r as nat, sq_hi as nat, sq_lo as nat);
            }
        } else {
            r = sq_hi * 2 + sq_lo / 0x8000_0000_0000_0000_0000_0000_0000_0000u128;
            proof {
                lemma_log_step_low(old_r as nat, sq_hi as nat, sq_lo as nat);
            }
        }
        bit_pos = bit_pos - 1;
        step = step / 2;
    }
    let neg = log_2 < 0;
    let abs_log: u128 = if neg {
        (0 - log_2) as u128
    } else {
        log_2 as u128
    };
    let (mul_hi, mul_lo) = widening_mul_u128(abs_log, LOG_SQRT10001);
    proof {
        assert(abs_log <= 0x40_0000_0000_0000_0000);
        assert(abs_log * LOG_SQRT10001 <= 0x40_0000_0000_0000_0000 * LOG_SQRT10001) by (nonlinear_arith)
            requires
                abs_log <= 0x40_0000_0000_0000_0000,
        ;
        assert(mul_hi < 0x10_0000) by (nonlinear_arith)
            requires
                mul_hi * 0x1_0000_0000_0000_0000_0000_0000_0000_0000int + mul_lo <= 0x40_0000_0000_0000_0000int
                    * 255_738_958_999_603_826_347_141int,
                mul_lo >= 0,
        ;
    }
    let (log_hi, log_lo): (i128, u128) = if !neg {
        (mul_hi as i128, mul_lo)
    } else if mul_lo == 0 {
        (0 - (mul_hi as i128), 0)
    } else {
        (0 - (mul_hi as i128) - 1, u128::MAX - mul_lo + 1)
    };
    proof {
        let m: int = 0x1_0000_0000_0000_0000_0000_0000_0000_0000int;
        assert(log_hi * m + log_lo == log_2 * LOG_SQRT10001) by (nonlinear_arith)
            requires
                mul_hi * m + mul_lo == abs_log * LOG_SQRT10001,
                abs_log == (if log_2 < 0 { -(log_2 as int) } else { log_2 as int }),
                neg == (log_2 < 0),
                !neg ==> log_hi == mul_hi && log_lo == mul_lo,
                neg && mul_lo == 0 ==> log_hi == -mul_hi && log_lo == 0,
                neg && mul_lo != 0 ==> log_hi == -mul_hi - 1 && log_lo == m - mul_lo,
        ;
    }
    let tick_low: i128 = log_hi - if log_lo < TICK_LOW_ERROR {
        1
    } else {
        0
    };
    let tick_high: i128 = log_hi + if log_lo > u128::MAX - TICK_HI_ERROR {
        1
    } else {
        0
    };
    proof {
        lemma_candidate_ticks(log_2 * LOG_SQRT10001, log_hi as int, log_lo as int);
    }
    let tl = tick_low as i32;
    let th = tick_high as i32;
    if tl == th {
        tl
    } else if th >= MIN_TICK && th <= MAX_TICK && !sqrt_price_x96.less_than(&sqrt_ratio_at_tick(th)) {
        th
    } else {
        tl
    }
}

/// The powers of two of the squaring loop, as literals.
proof fn lemma_log_pow_values()
    ensures
        pow2(127) == 0x8000_0000_0000_0000_0000_0000_0000_0000nat,
        pow2(128) == 0x1_0000_0000_0000_0000_0000_0000_0000_0000nat,
        pow2(255) == pow2(127) * pow2(128),
{
    lemma_pow2_limb_values();
    lemma_pow2_adds(127, 1);
    lemma_pow2_adds(127, 128);
    assert(pow2(1) == 2) by {
        lemma2_to64();
    }
}

/// A square at or above 2^255: the step's bit is set and the next value is
/// the high half.
proof fn lemma_log_step_high(r: nat, hi: nat, lo: nat)
    requires
        hi * pow2(128) + lo == r * r,
        lo < pow2(128),
        hi >= pow2(127),
        pow2(255) == pow2(127) * pow2(128),
    ensures
        log_step(r) == (true, hi),
{
    lemma_pow2_pos(128);
    lemma_mul_inequality(pow2(127) as int, hi as int, pow2(128) as int);
    lemma_fundamental_div_mod_converse((r * r) as int, pow2(128) as int, hi as int, lo as int);
}

/// A square below 2^255: the step's bit is clear and the next value is the
/// square over 2^127.
proof fn lemma_log_step_low(r: nat, hi: nat, lo: nat)
    requires
        hi * pow2(128) + lo == r * r,
        lo < pow2(128),
        hi < pow2(127),
        pow2(127) == 0x8000_0000_0000_0000_0000_0000_0000_0000nat,
        pow2(128) == 0x1_0000_0000_0000_0000_0000_0000_0000_0000nat,
        pow2(255) == pow2(127) * pow2(128),
    ensures
        log_step(r) == (false, hi * 2 + lo / 0x8000_0000_0000_0000_0000_0000_0000_0000nat),
{
    let h: int = 0x8000_0000_0000_0000_0000_0000_0000_0000;
    let lo: int = lo as int;
    let hi: int = hi as int;
    lemma_fundamental_div_mod(lo, h);
    lemma_mod_bound(lo, h);
    assert(hi * (2 * h) <= (h - 1) * (2 * h)) by (nonlinear_arith)
        requires
            hi <= h - 1,
            h > 0,
    ;
    assert(r * r < pow2(255));
    assert((r * r) == (hi * 2 + lo / h) * h + lo % h) by (nonlinear_arith)
        requires
            hi * (2 * h) + lo == r * r,
            lo == h * (lo / h) + lo % h,
    ;
    lemma_fundamental_div_mod_converse((r * r) as int, h, hi * 2 + lo / h, lo % h);
}

/// The candidate ticks from the high and low halves of the scaled logarithm.
proof fn lemma_candidate_ticks(x: int, hi: int, lo: int)
    requires
        hi * 0x1_0000_0000_0000_0000_0000_0000_0000_0000int + lo == x,
        0 <= lo < 0x1_0000_0000_0000_0000_0000_0000_0000_0000int,
    ensures
        (x - TICK_LOW_ERROR) / 0x1_0000_0000_0000_0000_0000_0000_0000_0000int == hi - (if lo < TICK_LOW_ERROR {
            1int
        } else {
            0
        }),
        (x + TICK_HI_ERROR) / 0x1_0000_0000_0000_0000_0000_0000_0000_0000int == hi + (if lo > u128::MAX
            - TICK_HI_ERROR {
            1int
        } else {
            0
        }),
{
    let m: int = 0x1_0000_0000_0000_0000_0000_0000_0000_0000int;
    if lo < TICK_LOW_ERROR {
        lemma_fundamental_div_mod_converse(x - TICK_LOW_ERROR, m, hi - 1, lo - TICK_LOW_ERROR + m);
    } else {
        lemma_fundamental_div_mod_converse(x - TICK_LOW_ERROR, m, hi, lo - TICK_LOW_ERROR);
    }
    if lo > u128::MAX - TICK_HI_ERROR {
        lemma_fundamental_div_mod_converse(x + TICK_HI_ERROR, m, hi + 1, lo + TICK_HI_ERROR - m);
    } else {
        lemma_fundamental_div_mod_converse(x + TICK_HI_ERROR, m, hi, lo + TICK_HI_ERROR);
    }
}

} // verus!
