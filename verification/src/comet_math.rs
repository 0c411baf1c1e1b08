//! Comet (Balancer V1) weighted-pool math in 18-decimal fixed point
//! (`BONE` = 10^18) on `i128`, with products and quotients taken through a
//! 256-bit intermediate.
//!
//! Every function states its result as the spec function of the same
//! computation; the `..._ok` predicates say that each intermediate value is
//! an `i128`, which the functions require.

use vstd::prelude::*;

use crate::clmm_math::{mul_div_u128, mul_div_u128_value};
use crate::clmm_math::bitmap::trunc_div;

verus! {

/// 18-decimal fixed point unit.
pub const BONE: i128 = 1_000_000_000_000_000_000;

/// Stellar stroops (7 decimals).
pub const STROOP: i128 = 10_000_000;

/// Scalar to convert stroops to 18 decimals: 10^11.
pub const STROOP_SCALAR: i128 = 100_000_000_000;

/// Precision for the power approximation.
pub const CPOW_PRECISION: i128 = 100_000_000;

/// Record for a token in the pool.
#[derive(Debug, Clone, Copy)]
pub struct CometRecord {
    /// In the token's native decimals (stroops for 7-decimal tokens).
    pub balance: i128,
    /// In stroops (7 decimals), e.g. 0.8 = 8_000_000.
    pub weight: i128,
    /// Factor that scales the balance to 18 decimals.
    pub scalar: i128,
}

/// `|a|` as a `u128`.
pub open spec fn abs_value(a: i128) -> u128 {
    if a < 0 {
        (-(a as int)) as u128
    } else {
        a as u128
    }
}

/// A `u128` read as the `i128` with the same bits.
pub open spec fn wrap_i128(v: u128) -> int {
    if v <= i128::MAX {
        v as int
    } else {
        v - 0x1_0000_0000_0000_0000_0000_0000_0000_0000int
    }
}

/// `v`, negated when `negative`.
pub open spec fn signed(negative: bool, v: int) -> int {
    if negative {
        -v
    } else {
        v
    }
}

/// Whether a value is an `i128`.
pub open spec fn in_i128(v: int) -> bool {
    i128::MIN <= v <= i128::MAX
}

/// `a * b / scale` on magnitudes (256-bit intermediate, rounded down,
/// capped at `u128::MAX`), read as an `i128` and given the sign of `a * b`.
pub open spec fn fixed_mul_int(a: i128, b: i128, scale: i128) -> int {
    signed((a < 0) != (b < 0), wrap_i128(mul_div_u128_value(abs_value(a), abs_value(b), abs_value(scale), false)))
}

/// `a * scale / b` in the same way; 0 when `b` is 0.
pub open spec fn fixed_div_int(a: i128, b: i128, scale: i128) -> int {
    if b == 0 {
        0
    } else {
        signed((a < 0) != (b < 0), wrap_i128(mul_div_u128_value(abs_value(a), abs_value(scale), abs_value(b), false)))
    }
}

fn abs_u128(a: i128) -> (r: u128)
    ensures
        r == abs_value(a),
{
    if a < 0 {
        ((0 - (a + 1)) as u128) + 1
    } else {
        a as u128
    }
}

fn wrap_to_i128(v: u128) -> (r: i128)
    ensures
        r == wrap_i128(v),
{
    if v <= 0x7fff_ffff_ffff_ffff_ffff_ffff_ffff_ffffu128 {
        v as i128
    } else {
        ((v - 0x8000_0000_0000_0000_0000_0000_0000_0000u128) as i128) + i128::MIN
    }
}

fn fixed_mul_floor_i128(a: i128, b: i128, scale: i128) -> (r: i128)
    requires
        in_i128(fixed_mul_int(a, b, scale)),
    ensures
        r == fixed_mul_int(a, b, scale),
{
    let negative = (a < 0) != (b < 0);
    let result = mul_div_u128(abs_u128(a), abs_u128(b), abs_u128(scale), false);
    let w = wrap_to_i128(result);
    if negative {
        0 - w
    } else {
        w
    }
}

fn fixed_div_floor_i128(a: i128, b: i128, scale: i128) -> (r: i128)
    requires
        in_i128(fixed_div_int(a, b, scale)),
    ensures
        r == fixed_div_int(a, b, scale),
{
    if b == 0 {
        return 0;
    }
    let negative = (a < 0) != (b < 0);
    let result = mul_div_u128(abs_u128(a), abs_u128(scale), abs_u128(b), false);
    let w = wrap_to_i128(result);
    if negative {
        0 - w
    } else {
        w
    }
}

/// Rust's `/` on `i128`: rounded toward zero.
fn div_toward_zero(a: i128, b: i128) -> (q: i128)
    requires
        b > 0,
    ensures
        q == trunc_div(a as int, b as int),
        -(a as int) <= q * b <= a || a <= q * b <= -(a as int),
{
    proof {
        let x = a as int;
        let y = b as int;
        if x >= 0 {
            vstd::arithmetic::div_mod::lemma_div_is_ordered_by_denominator(x, 1, y);
            vstd::arithmetic::div_mod::lemma_div_pos_is_pos(x, y);
            vstd::arithmetic::div_mod::lemma_fundamental_div_mod(x, y);
            vstd::arithmetic::div_mod::lemma_mod_pos_bound(x, y);
            assert(x / 1 == x);
            assert(0 <= (x / y) * y <= x) by (nonlinear_arith)
                requires
                    x == y * (x / y) + x % y,
                    0 <= x % y,
                    x / y >= 0,
                    y > 0,
            ;
        } else {
            vstd::arithmetic::div_mod::lemma_div_is_ordered_by_denominator(-x, 1, y);
            vstd::arithmetic::div_mod::lemma_div_pos_is_pos(-x, y);
            vstd::arithmetic::div_mod::lemma_fundamental_div_mod(-x, y);
            vstd::arithmetic::div_mod::lemma_mod_pos_bound(-x, y);
            assert((-x) / 1 == -x);
            assert(0 <= ((-x) / y) * y <= -x) by (nonlinear_arith)
                requires
                    -x == y * ((-x) / y) + (-x) % y,
                    0 <= (-x) % y,
                    (-x) / y >= 0,
                    y > 0,
            ;
            assert((-((-x) / y)) * y == -(((-x) / y) * y)) by (nonlinear_arith);
        }
    }
    a / b
}

/// The repeated squaring of `c_powi`: `z` times `a` to the `n`-th power,
/// each product rounded as `fixed_mul_int`.
pub open spec fn powi_loop(z: i128, a: i128, n: u32) -> i128
    decreases n,
{
    if n == 0 {
        z
    } else {
        let a2 = fixed_mul_int(a, a, BONE) as i128;
        let z2 = if n % 2 == 1 {
            fixed_mul_int(z, a2, BONE) as i128
        } else {
            z
        };
        powi_loop(z2, a2, n / 2)
    }
}

/// Every product of `powi_loop` is an `i128`.
pub open spec fn powi_loop_ok(z: i128, a: i128, n: u32) -> bool
    decreases n,
{
    n == 0 || {
        let a2 = fixed_mul_int(a, a, BONE);
        let z2 = if n % 2 == 1 {
            fixed_mul_int(z, a2 as i128, BONE)
        } else {
            z as int
        };
        &&& in_i128(a2)
        &&& in_i128(z2)
        &&& powi_loop_ok(z2 as i128, a2 as i128, n / 2)
    }
}

/// `a^n` by repeated squaring.
pub open spec fn c_powi_value(a: i128, n: u32) -> i128 {
    powi_loop(if n % 2 == 1 { a } else { BONE }, a, n / 2)
}

fn c_powi(a: i128, n: u32) -> (r: i128)
    requires
        powi_loop_ok(if n % 2 == 1 { a } else { BONE }, a, n / 2),
    ensures
        r == c_powi_value(a, n),
{
    let ghost target = c_powi_value(a, n);
    let mut z = if n % 2 != 0 {
        a
    } else {
        BONE
    };
    let mut base = a;
    let mut k = n / 2;
    while k != 0
        invariant
            powi_loop(z, base, k) == target,
            powi_loop_ok(z, base, k),
        decreases k,
    {
        base = fixed_mul_floor_i128(base, base, BONE);
        if k % 2 != 0 {
            z = fixed_mul_floor_i128(z, base, BONE);
        }
        k = k / 2;
    }
    z
}

/// The binomial series of `c_pow_approx` from term `i` on: each term is the
/// previous one times `(exp - (i - 1)) * x / i`, added until a term is
/// within `CPOW_PRECISION` or fifty terms are in.
pub open spec fn approx_loop(i: int, term: i128, sum: i128, x: i128, exp: i128) -> i128
    decreases 51 - i,
{
    if i >= 51 {
        sum
    } else {
        let big_k = i * BONE;
        let c = exp - (big_k - BONE);
        let inner = fixed_mul_int(c as i128, x, BONE) as i128;
        let t1 = fixed_mul_int(term, inner, BONE) as i128;
        let t2 = fixed_div_int(t1, big_k as i128, BONE) as i128;
        let s2 = (sum + t2) as i128;
        if abs_value(t2) <= CPOW_PRECISION {
            s2
        } else {
            approx_loop(i + 1, t2, s2, x, exp)
        }
    }
}

/// Every intermediate of `approx_loop` is an `i128`.
pub open spec fn approx_loop_ok(i: int, term: i128, sum: i128, x: i128, exp: i128) -> bool
    decreases 51 - i,
{
    i >= 51 || {
        let big_k = i * BONE;
        let c = exp - (big_k - BONE);
        let inner = fixed_mul_int(c as i128, x, BONE);
        let t1 = fixed_mul_int(term, inner as i128, BONE);
        let t2 = fixed_div_int(t1 as i128, big_k as i128, BONE);
        &&& in_i128(c)
        &&& in_i128(inner)
        &&& in_i128(t1)
        &&& in_i128(t2)
        &&& in_i128(sum + t2)
        &&& (abs_value(t2 as i128) <= CPOW_PRECISION || approx_loop_ok(i + 1, t2 as i128, (sum + t2) as i128, x, exp))
    }
}

/// `base^exp` for `exp` below one: the series sum, at least 0.
pub open spec fn c_pow_approx_value(base: i128, exp: i128) -> i128 {
    let s = approx_loop(1, BONE, BONE, (base - BONE) as i128, exp);
    if s > 0 {
        s
    } else {
        0
    }
}

fn c_pow_approx(base: i128, exp: i128) -> (r: i128)
    requires
        in_i128(base - BONE),
        approx_loop_ok(1, BONE, BONE, (base - BONE) as i128, exp),
    ensures
        r == c_pow_approx_value(base, exp),
{
    let x = base - BONE;
    let ghost target = approx_loop(1, BONE, BONE, x, exp);
    let mut term: i128 = BONE;
    let mut sum: i128 = BONE;
    let mut i: i128 = 1;
    let mut done = false;
    while i < 51 && !done
        invariant
            1 <= i <= 51,
            done ==> sum == target,
            !done ==> approx_loop(i as int, term, sum, x, exp) == target,
            !done ==> approx_loop_ok(i as int, term, sum, x, exp),
        decreases 2 * (51 - i) + (if done { 0int } else { 1int }),
    {
        let big_k = i * BONE;
        let c = exp - (big_k - BONE);
        term = fixed_mul_floor_i128(term, fixed_mul_floor_i128(c, x, BONE), BONE);
        term = fixed_div_floor_i128(term, big_k, BONE);
        sum = sum + term;
        if abs_u128(term) <= CPOW_PRECISION as u128 {
            done = true;
        } else {
            i = i + 1;
        }
    }
    if sum > 0 {
        sum
    } else {
        0
    }
}

/// `base^exp` in fixed point: 0 for a base at or below 0, 1 for a base of
/// two or more; else the whole power by squaring times the series for the
/// fractional rest.
pub open spec fn c_pow_value(base: i128, exp: i128) -> i128 {
    if base <= 0 {
        0
    } else if base > 2 * BONE - 1 {
        BONE
    } else {
        let int_part = trunc_div(exp as int, BONE as int);
        let remain = exp - int_part * BONE;
        let whole = c_powi_value(base, int_part as u32);
        if remain == 0 {
            whole
        } else {
            fixed_mul_int(whole, c_pow_approx_value(base, remain as i128), BONE) as i128
        }
    }
}

/// Every intermediate of `c_pow_value` is an `i128`.
pub open spec fn c_pow_ok(base: i128, exp: i128) -> bool {
    base <= 0 || base > 2 * BONE - 1 || {
        let int_part = trunc_div(exp as int, BONE as int);
        let remain = exp - int_part * BONE;
        let n = int_part as u32;
        &&& powi_loop_ok(if n % 2 == 1 { base } else { BONE }, base, n / 2)
        &&& remain != 0 ==> {
            &&& approx_loop_ok(1, BONE, BONE, (base - BONE) as i128, remain as i128)
            &&& in_i128(fixed_mul_int(c_powi_value(base, n), c_pow_approx_value(base, remain as i128), BONE))
        }
    }
}

/// Fixed-point power: `base^exp` where both are 18-decimal fixed point.
/// Uses integer exponentiation for the whole part and the binomial series
/// for the fractional part.
pub fn c_pow(base: i128, exp: i128, round_up: bool) -> (r: i128)
    requires
        c_pow_ok(base, exp),
    ensures
        r == c_pow_value(base, exp),
{
    if base <= 0 {
        return 0;
    }
    if base > 2 * BONE - 1 {
        return BONE;
    }
    let int_part = div_toward_zero(exp, BONE);
    let remain = exp - int_part * BONE;
    let whole_pow = c_powi(base, int_part as u32);
    if remain == 0 {
        return whole_pow;
    }
    let partial = c_pow_approx(base, remain);
    fixed_mul_floor_i128(whole_pow, partial, BONE)
}

/// Rust's `/` on `i128` for any divisor.
fn quotient_toward_zero(a: i128, b: i128) -> (q: i128)
    requires
        b != 0,
        !(a == i128::MIN && b == -1),
    ensures
        q == trunc_div(a as int, b as int),
{
    proof {
        let x = a as int;
        let y = b as int;
        if x >= 0 {
            if y > 0 {
                vstd::arithmetic::div_mod::lemma_div_is_ordered_by_denominator(x, 1, y);
                vstd::arithmetic::div_mod::lemma_div_pos_is_pos(x, y);
                assert(x / 1 == x);
            } else {
                assert(-x <= x / y <= 0) by (nonlinear_arith)
                    requires
                        x >= 0,
                        y < 0,
                ;
            }
        } else {
            if y > 0 {
                vstd::arithmetic::div_mod::lemma_div_is_ordered_by_denominator(-x, 1, y);
                vstd::arithmetic::div_mod::lemma_div_pos_is_pos(-x, y);
                assert((-x) / 1 == -x);
            } else if y == -1 {
                assert((-x) / y == x) by (nonlinear_arith)
                    requires
                        y == -1,
                ;
            } else {
                assert(x / 2 <= (-x) / y <= 0) by (nonlinear_arith)
                    requires
                        x < 0,
                        y <= -2,
                ;
            }
        }
    }
    a / b
}

/// The steps of the weighted-pool formula on 18-decimal values: balances
/// and input scaled up, the input less the fee, the base
/// `balance_in / (balance_in + adjusted_in)`, its power
/// `weight_in / weight_out`, and the output balance times one less that
/// power, scaled back down (rounded toward zero).
pub open spec fn calc_out_value(in_record: CometRecord, out_record: CometRecord, amount_in: i128, swap_fee: i128) -> i128 {
    if amount_in == 0 || in_record.balance == 0 || out_record.balance == 0 {
        0
    } else if in_record.weight == 0 || out_record.weight == 0 {
        0
    } else {
        let balance_in = in_record.balance * in_record.scalar;
        let balance_out = out_record.balance * out_record.scalar;
        let token_amount_in = amount_in * in_record.scalar;
        let fee_adjust_ratio = (STROOP - swap_fee) * STROOP_SCALAR;
        let weight_ratio = fixed_div_int(in_record.weight, out_record.weight, STROOP) * STROOP_SCALAR;
        let adjusted_in = fixed_mul_int(token_amount_in as i128, fee_adjust_ratio as i128, BONE);
        let base = fixed_div_int(balance_in as i128, (balance_in + adjusted_in) as i128, BONE);
        let power = c_pow_value(base as i128, weight_ratio as i128);
        let balance_ratio = BONE - power;
        if balance_ratio <= 0 {
            0
        } else {
            let result = fixed_mul_int(balance_out as i128, balance_ratio as i128, BONE);
            if out_record.scalar == 0 {
                0
            } else {
                trunc_div(result, out_record.scalar as int) as i128
            }
        }
    }
}

/// Every intermediate of `calc_out_value` is an `i128`.
pub open spec fn calc_out_ok(in_record: CometRecord, out_record: CometRecord, amount_in: i128, swap_fee: i128) -> bool {
    amount_in == 0 || in_record.balance == 0 || out_record.balance == 0 || in_record.weight == 0
        || out_record.weight == 0 || {
        let balance_in = in_record.balance * in_record.scalar;
        let balance_out = out_record.balance * out_record.scalar;
        let token_amount_in = amount_in * in_record.scalar;
        let fee_adjust_ratio = (STROOP - swap_fee) * STROOP_SCALAR;
        let weight_quotient = fixed_div_int(in_record.weight, out_record.weight, STROOP);
        let weight_ratio = weight_quotient * STROOP_SCALAR;
        let adjusted_in = fixed_mul_int(token_amount_in as i128, fee_adjust_ratio as i128, BONE);
        let base = fixed_div_int(balance_in as i128, (balance_in + adjusted_in) as i128, BONE);
        let power = c_pow_value(base as i128, weight_ratio as i128);
        let balance_ratio = BONE - power;
        let result = fixed_mul_int(balance_out as i128, balance_ratio as i128, BONE);
        &&& in_i128(balance_in)
        &&& in_i128(balance_out)
        &&& in_i128(token_amount_in)
        &&& in_i128(STROOP - swap_fee)
        &&& in_i128(fee_adjust_ratio)
        &&& in_i128(weight_quotient)
        &&& in_i128(weight_ratio)
        &&& in_i128(adjusted_in)
        &&& in_i128(balance_in + adjusted_in)
        &&& in_i128(base)
        &&& c_pow_ok(base as i128, weight_ratio as i128)
        &&& in_i128(balance_ratio)
        &&& balance_ratio > 0 ==> {
            &&& in_i128(result)
            &&& !(result == i128::MIN && out_record.scalar == -1)
        }
    }
}

/// Calculate token out given token in (Balancer weighted pool formula).
///
/// Returns the output amount in the output token's native decimals.
pub fn calc_out_given_in(
    in_record: &CometRecord,
    out_record: &CometRecord,
    amount_in: i128,
    swap_fee: i128,
) -> (r: i128)
    requires
        calc_out_ok(*in_record, *out_record, amount_in, swap_fee),
    ensures
        r == calc_out_value(*in_record, *out_record, amount_in, swap_fee),
{
    if amount_in == 0 || in_record.balance == 0 || out_record.balance == 0 {
        return 0;
    }
    if in_record.weight == 0 || out_record.weight == 0 {
        return 0;
    }
    let token_balance_in = in_record.balance * in_record.scalar;
    let token_balance_out = out_record.balance * out_record.scalar;
    let token_amount_in = amount_in * in_record.scalar;
    let fee_adjust_ratio = (STROOP - swap_fee) * STROOP_SCALAR;
    let weight_ratio = fixed_div_floor_i128(in_record.weight, out_record.weight, STROOP) * STROOP_SCALAR;
    let adjusted_in = fixed_mul_floor_i128(token_amount_in, fee_adjust_ratio, BONE);
    let base = fixed_div_floor_i128(token_balance_in, token_balance_in + adjusted_in, BONE);
    let power = c_pow(base, weight_ratio, true);
    let balance_ratio = BONE - power;
    if balance_ratio <= 0 {
        return 0;
    }
    let result = fixed_mul_floor_i128(token_balance_out, balance_ratio, BONE);
    if out_record.scalar == 0 {
        return 0;
    }
    quotient_toward_zero(result, out_record.scalar)
}

} // verus!
