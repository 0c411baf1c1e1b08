//! Concentrated-liquidity (Uniswap V3 style) math on Q64.96 square-root
//! prices, shared by Aquarius concentrated pools and Sushi V3.

pub mod bitmap;
pub mod simulate;
pub mod swap;
pub mod tick_math;

pub use self::swap::{ClmmPoolState, TickDataStore, TickState};
pub use self::simulate::simulate_swap;
pub use self::tick_math::tick_at_sqrt_ratio;

use crate::u256::{
    U256, lemma_div_step, lemma_mod_mul_equivalent_even, lemma_pow2_limb_values, lemma_prefix_step, lemma_value_bound, u256_modulus,
};
use vstd::arithmetic::div_mod::*;
use vstd::arithmetic::mul::*;
use vstd::arithmetic::power2::*;
use vstd::bits::*;
use vstd::prelude::*;

verus! {

/// `x / d` rounded up.
pub open spec fn div_ceil(x: nat, d: nat) -> nat {
    if x % d == 0 {
        x / d
    } else {
        x / d + 1
    }
}

/// `a * b / d`, rounded up or down.
pub open spec fn mul_div_value(a: nat, b: nat, d: nat, round_up: bool) -> nat {
    if round_up {
        div_ceil(a * b, d)
    } else {
        (a * b) / d
    }
}

/// The two roundings of `a * b / d` bracket the exact quotient and differ by
/// at most one, and by nothing exactly when `d` divides `a * b`.
pub proof fn lemma_mul_div_rounding(a: nat, b: nat, d: nat)
    requires
        d > 0,
    ensures
        mul_div_value(a, b, d, false) * d <= a * b < (mul_div_value(a, b, d, false) + 1) * d,
        a * b <= mul_div_value(a, b, d, true) * d,
        mul_div_value(a, b, d, false) <= mul_div_value(a, b, d, true) <= mul_div_value(a, b, d, false) + 1,
        (mul_div_value(a, b, d, true) == mul_div_value(a, b, d, false)) == ((a * b) % d == 0),
{
    let p: int = (a * b) as int;
    lemma_fundamental_div_mod(p, d as int);
    lemma_mod_pos_bound(p, d as int);
    let q = p / (d as int);
    assert(q * d <= p < (q + 1) * d) by (nonlinear_arith)
        requires
            p == d * q + p % (d as int),
            0 <= p % (d as int) < d,
    ;
    assert(p <= div_ceil(p as nat, d) * d) by (nonlinear_arith)
        requires
            p == d * q + p % (d as int),
            0 <= p % (d as int) < d,
            div_ceil(p as nat, d) == (if p % (d as int) == 0 { q } else { q + 1 }),
    ;
}

/// The bit-by-bit division of `rem * 2^i + (lo mod 2^i)` by `d` as the
/// 256-bit registers carry it out, with bits `i - 1` down to 0 of `lo`
/// still to bring down: each step doubles the remainder (modulo 2^256) and
/// brings down the next bit, and subtracts `d` (modulo 2^256), setting the
/// quotient bit, when the doubling overflowed or the remainder reached `d`.
/// Gives the quotient and the remainder. When `rem < d` this is the exact
/// division; otherwise the registers wrap.
pub open spec fn long_division(rem: nat, q: nat, lo: nat, d: nat, i: nat) -> (nat, nat)
    decreases i,
{
    if i == 0 {
        (q, rem)
    } else {
        let bit = (lo / pow2((i - 1) as nat)) % 2;
        let t = (2 * rem + bit) % u256_modulus();
        if 2 * rem >= u256_modulus() || t >= d {
            long_division(((t - d) % (u256_modulus() as int)) as nat, 2 * q + 1, lo, d, (i - 1) as nat)
        } else {
            long_division(t, 2 * q, lo, d, (i - 1) as nat)
        }
    }
}

/// What the mul-div routines return for every input: a product within 256
/// bits is divided exactly; a wider one by the bit-by-bit division of its
/// two halves; rounding up adds one (modulo 2^256) when a remainder is left.
pub open spec fn mul_div_wide(a: nat, b: nat, d: nat, round_up: bool) -> nat {
    let n = a * b;
    let m = u256_modulus();
    if n < m {
        mul_div_value(a, b, d, round_up) % m
    } else {
        let (q, r) = long_division(n / m, 0, n % m, d, 256);
        if round_up && r != 0 {
            (q + 1) % m
        } else {
            q
        }
    }
}

/// floor(a * b / d) with a 512-bit intermediate product.
pub fn mul_div_floor(a: &U256, b: &U256, d: &U256) -> (r: U256)
    requires
        d@ != 0,
    ensures
        (a@ * b@) / d@ < u256_modulus() ==> r@ == (a@ * b@) / d@,
        r@ == mul_div_wide(a@, b@, d@, false),
{
    mul_div_internal(a, b, d, false)
}

/// ceil(a * b / d) with a 512-bit intermediate product; wraps to 0 when the
/// rounded-up value is exactly 2^256.
pub fn mul_div_ceil(a: &U256, b: &U256, d: &U256) -> (r: U256)
    requires
        d@ != 0,
    ensures
        (a@ * b@) / d@ < u256_modulus() ==> r@ == div_ceil(a@ * b@, d@) % u256_modulus(),
        r@ == mul_div_wide(a@, b@, d@, true),
{
    mul_div_internal(a, b, d, true)
}

fn mul_div_internal(a: &U256, b: &U256, d: &U256, round_up: bool) -> (r: U256)
    requires
        d@ != 0,
    ensures
        (a@ * b@) / d@ < u256_modulus() ==> r@ == mul_div_value(a@, b@, d@, round_up)
            % u256_modulus(),
        r@ == mul_div_wide(a@, b@, d@, round_up),
{
    if a.is_zero() || b.is_zero() {
        proof {
            lemma_mul_basics(a@ as int);
            lemma_mul_basics(b@ as int);
            lemma_div_of0(d@ as int);
            lemma_small_mod(0, d@);
            lemma_small_mod(0, u256_modulus());
            assert(a@ * b@ == 0);
        }
        return U256([0, 0, 0, 0]);
    }
    let (lo, hi) = a.full_mul(b);
    if hi.is_zero() {
        let (q, r) = lo.div_rem(d);
        proof {
            assert(a@ * b@ == lo@);
            lemma_value_bound(lo.0);
            lemma_value_bound(q.0);
            lemma_small_mod(q@, u256_modulus());
        }
        if round_up && !r.is_zero() {
            let one = U256([1, 0, 0, 0]);
            return q.wrapping_add(&one);
        }
        return q;
    }
    let (q, r) = div_512_by_256(&hi, &lo, d);
    proof {
        let n = a@ * b@;
        let m = u256_modulus();
        lemma_value_bound(lo.0);
        lemma_fundamental_div_mod_converse_div(n as int, m as int, hi@ as int, lo@ as int);
        lemma_fundamental_div_mod_converse_mod(n as int, m as int, hi@ as int, lo@ as int);
        assert(n >= m) by (nonlinear_arith)
            requires
                n == lo@ + hi@ * m,
                hi@ >= 1,
        ;
        if n / d@ < m {
            lemma_value_bound(lo.0);
            assert(hi@ < d@) by {
                lemma_hi_below_divisor(n as int, lo@ as int, hi@ as int, d@ as int, m as int);
            }
            lemma_value_bound(q.0);
            lemma_small_mod(q@, m);
        }
    }
    if round_up && !r.is_zero() {
        let one = U256([1, 0, 0, 0]);
        q.wrapping_add(&one)
    } else {
        q
    }
}

/// A 512-bit product whose quotient fits in 256 bits has its high half below
/// the divisor.
proof fn lemma_hi_below_divisor(n: int, lo: int, hi: int, d: int, m: int)
    requires
        n == lo + hi * m,
        0 <= lo < m,
        hi >= 0,
        d > 0,
        n / d < m,
    ensures
        hi < d,
{
    if hi >= d {
        assert(n >= d * m) by (nonlinear_arith)
            requires
                n == lo + hi * m,
                lo >= 0,
                hi >= d,
                m > 0,
        ;
        lemma_div_is_ordered(d * m, n, d);
        lemma_div_multiples_vanish(m, d);
    }
}

/// Divide the 512-bit number `hi * 2^256 + lo` by `d`, bit by bit. The
/// quotient is meaningful when `hi < d`.
#[verifier::rlimit(60)]
#[verifier::spinoff_prover]
fn div_512_by_256(hi: &U256, lo: &U256, d: &U256) -> (res: (U256, U256))
    requires
        d@ != 0,
    ensures
        hi@ < d@ ==> res.0@ == (hi@ * u256_modulus() + lo@) / d@,
        hi@ < d@ ==> res.1@ == (hi@ * u256_modulus() + lo@) % d@,
        (res.0@, res.1@) == long_division(hi@, 0, lo@, d@, 256),
{
    let mut remainder = *hi;
    let mut quotient = U256([0, 0, 0, 0]);
    let ghost n = (hi@ * u256_modulus() + lo@) as int;
    let ghost dd = d@ as int;
    let ghost m = u256_modulus() as int;
    proof {
        lemma2_to64();
        lemma_pow2_limb_values();
        lemma_value_bound(lo.0);
        lemma_value_bound(hi.0);
        lemma_fundamental_div_mod_converse_div(n, m, hi@ as int, lo@ as int);
        if hi@ < d@ {
            lemma_small_mod(hi@, d@);
            lemma_basic_div(hi@ as int, dd);
        }
    }
    let mut i: u32 = 256;
    while i > 0
        invariant
            i <= 256,
            dd == d@,
            dd > 0,
            m == u256_modulus(),
            n == hi@ * m + lo@,
            lo@ < m,
            quotient@ < pow2((256 - i) as nat),
            hi@ < d@ ==> remainder@ == (n / pow2(i as nat) as int) % dd,
            hi@ < d@ ==> quotient@ == (n / pow2(i as nat) as int) / dd,
            long_division(remainder@, quotient@, lo@, d@, i as nat) == long_division(hi@, 0, lo@, d@, 256),
        decreases i,
    {
        let ghost prefix = n / pow2(i as nat) as int;
        i = i - 1;
        let overflow = remainder.top_bit_set();
        let bit = lo.shr(i).low_bit();
        proof {
            lemma_prefix_step_512(n, hi@ as int, lo@ as int, m, i as nat);
            lemma_pow2_pos((i + 1) as nat);
            lemma_div_pos_is_pos(n, pow2((i + 1) as nat) as int);
        }
        let ghost rem0 = remainder@ as int;
        let ghost q0 = quotient@;
        remainder = remainder.shl1_with_bit(bit);
        let q2 = quotient.shl1_with_bit(0);
        proof {
            lemma_pow2_unfold((256 - i) as nat);
            lemma_pow2_limb_values();
            if i > 0 {
                lemma_pow2_strictly_increases((256 - i) as nat, 256);
            }
            lemma_small_mod((2 * quotient@) as nat, m as nat);
            lemma_mod_mul_equivalent_even(quotient@ as int, m);
            if hi@ < d@ {
                lemma_div_step(prefix, dd, bit as int, rem0, quotient@ as int);
                lemma_mod_pos_bound(prefix, dd);
                lemma_wrap_step(rem0, bit as int, dd, m);
            }
        }
        if overflow || !remainder.less_than(d) {
            remainder = remainder.wrapping_sub(d);
            quotient = q2.double_plus_one_adjust();
            proof {
                if hi@ < d@ {
                    lemma_small_mod((2 * rem0 + bit - dd) as nat, m as nat);
                }
            }
        } else {
            quotient = q2;
        }
        proof {
            lemma_long_division_unfold(rem0 as nat, q0, lo@, d@, (i + 1) as nat);
        }
    }
    proof {
        lemma2_to64();
        assert(n / 1 == n);
    }
    (quotient, remainder)
}

/// One step of the bit-by-bit division.
proof fn lemma_long_division_unfold(rem: nat, q: nat, lo: nat, d: nat, i: nat)
    requires
        i > 0,
    ensures
        ({
            let bit = (lo / pow2((i - 1) as nat)) % 2;
            let t = (2 * rem + bit) % u256_modulus();
            long_division(rem, q, lo, d, i) == if 2 * rem >= u256_modulus() || t >= d {
                long_division(((t - d) % (u256_modulus() as int)) as nat, 2 * q + 1, lo, d, (i - 1) as nat)
            } else {
                long_division(t, 2 * q, lo, d, (i - 1) as nat)
            }
        }),
{
}

/// The next dividend prefix of `hi * 2^256 + lo` takes bit `i` of `lo`.
proof fn lemma_prefix_step_512(n: int, hi: int, lo: int, m: int, i: nat)
    requires
        m == u256_modulus(),
        n == hi * m + lo,
        0 <= lo < m,
        hi >= 0,
        i < 256,
    ensures
        n / (pow2(i) as int) == 2 * (n / (pow2(i + 1) as int)) + (lo / (pow2(i) as int)) % 2,
        (lo / (pow2(i) as int)) % 2 == 0 || (lo / (pow2(i) as int)) % 2 == 1,
{
    lemma_prefix_step(n, i);
    lemma_prefix_step(lo, i);
    lemma_pow2_limb_values();
    lemma_pow2_pos(i);
    lemma_pow2_pos((256 - i - 1) as nat);
    lemma_pow2_adds(i + 1, (256 - i - 1) as nat);
    let pi = pow2(i) as int;
    let k = pow2((256 - i - 1) as nat) as int;
    assert(m == pow2(i + 1) * k);
    lemma_pow2_unfold(i + 1);
    assert(m == pi * (2 * k)) by {
        lemma_mul_is_associative(pi, 2, k);
        lemma_mul_is_commutative(pi, 2);
    }
    assert(n == lo + (hi * (2 * k)) * pi) by {
        lemma_mul_is_associative(hi, 2 * k, pi);
        lemma_mul_is_commutative(2 * k, pi);
    }
    lemma_hoist_over_denominator(lo, hi * (2 * k), pi as nat);
    assert(hi * (2 * k) == 2 * (hi * k)) by {
        lemma_mul_is_associative(hi, 2, k);
        lemma_mul_is_commutative(hi, 2);
        lemma_mul_is_associative(2, hi, k);
    }
    lemma_mod_multiples_vanish(hi * k, lo / pi, 2);
}

/// The wrapped doubling of a remainder below the divisor, followed by the
/// wrapped subtraction, gives the true remainder step.
proof fn lemma_wrap_step(rem: int, bit: int, d: int, m: int)
    requires
        0 <= rem < d,
        d < m,
        0 <= bit <= 1,
        m == u256_modulus(),
    ensures
        (rem >= m / 2) == (2 * rem + bit >= m),
        2 * rem + bit >= m ==> ((2 * rem + bit) % m - d) % m == 2 * rem + bit - d,
        2 * rem + bit >= m ==> 2 * rem + bit >= d,
        2 * rem + bit < m ==> (2 * rem + bit) % m == 2 * rem + bit,
{
    if 2 * rem + bit >= m {
        lemma_fundamental_div_mod_converse_mod(2 * rem + bit, m, 1, 2 * rem + bit - m);
        lemma_fundamental_div_mod_converse_mod(2 * rem + bit - m - d, m, -1, 2 * rem + bit - d);
    } else {
        lemma_small_mod((2 * rem + bit) as nat, m as nat);
    }
}


/// `v` capped at `u128::MAX`.
pub open spec fn cap_u128(v: nat) -> u128 {
    if v > u128::MAX {
        u128::MAX
    } else {
        v as u128
    }
}

/// The result of `mul_div_u128`.
pub open spec fn mul_div_u128_value(a: u128, b: u128, c: u128, round_up: bool) -> u128 {
    if c == 0 || a == 0 || b == 0 {
        0
    } else {
        cap_u128(mul_div_value(a as nat, b as nat, c as nat, round_up))
    }
}

/// `a * b / c` for `u128` values, rounded up or down; 0 when any operand is
/// 0, and `u128::MAX` when the exact result does not fit.
pub fn mul_div_u128(a: u128, b: u128, c: u128, round_up: bool) -> (r: u128)
    ensures
        r == mul_div_u128_value(a, b, c, round_up),
{
    if c == 0 {
        return 0;
    }
    if a == 0 || b == 0 {
        return 0;
    }
    if let Some(product) = a.checked_mul(b) {
        let q = product / c;
        let r = product % c;
        proof {
            lemma_fundamental_div_mod(product as int, c as int);
            if c >= 2 {
                lemma_div_is_ordered_by_denominator(product as int, 2, c as int);
            } else {
                assert(product % 1 == 0);
            }
        }
        return if round_up && r > 0 {
            q + 1
        } else {
            q
        };
    }
    let a256 = U256::from_u128(a);
    let b256 = U256::from_u128(b);
    let c256 = U256::from_u128(c);
    proof {
        let n = (a as nat) * (b as nat);
        lemma_mul_upper_bound(a as int, u128::MAX as int, b as int, u128::MAX as int);
        assert(n < u256_modulus());
        lemma_div_is_ordered_by_denominator(n as int, 1, c as int);
        assert(n / 1 == n);
        if n % (c as nat) != 0 {
            lemma_fundamental_div_mod(n as int, c as int);
            assert(n / (c as nat) + 1 <= n) by {
                lemma_mod_pos_bound(n as int, c as int);
                if c == 1 {
                    assert(n % 1 == 0);
                } else {
                    lemma_div_is_ordered_by_denominator(n as int, 2, c as int);
                }
            }
        }
    }
    let result = if round_up {
        mul_div_ceil(&a256, &b256, &c256)
    } else {
        mul_div_floor(&a256, &b256, &c256)
    };
    proof {
        let n = (a as nat) * (b as nat);
        if round_up {
            lemma_small_mod(div_ceil(n, c as nat), u256_modulus());
        }
    }
    match result.to_u128() {
        Some(v) => v,
        None => u128::MAX,
    }
}

// ============================================================================
// Tick math
// ============================================================================

pub const MIN_TICK: i32 = -887_272;

pub const MAX_TICK: i32 = 887_272;

pub const FEE_DENOMINATOR: u128 = 10_000;

pub const TICKS_PER_CHUNK: i32 = 16;

const MIN_SQRT_RATIO: u128 = 4_295_128_739;

/// 2^128, the Q128.128 unit.
pub open spec fn q128() -> nat {
    0x1_0000_0000_0000_0000_0000_0000_0000_0000nat
}

/// 2^96, the Q64.96 unit.
pub open spec fn q96() -> nat {
    0x1_0000_0000_0000_0000_0000_0000nat
}

/// The on-chain tick multiplier table: entry `i` is
/// `2^128 / sqrt(1.0001)^(2^i)` in Q128.128, as the contract rounds it.
pub open spec fn tick_multiplier(i: nat) -> nat {
    if i == 0 {
        0xfffcb933bd6fad37aa2d162d1a594001nat
    } else if i == 1 {
        0xfff97272373d413259a46990580e213anat
    } else if i == 2 {
        0xfff2e50f5f656932ef12357cf3c7fdccnat
    } else if i == 3 {
        0xffe5caca7e10e4e61c3624eaa0941cd0nat
    } else if i == 4 {
        0xffcb9843d60f6159c9db58835c926644nat
    } else if i == 5 {
        0xff973b41fa98c081472e6896dfb254c0nat
    } else if i == 6 {
        0xff2ea16466c96a3843ec78b326b52861nat
    } else if i == 7 {
        0xfe5dee046a99a2a811c461f1969c3053nat
    } else if i == 8 {
        0xfcbe86c7900a88aedcffc83b479aa3a4nat
    } else if i == 9 {
        0xf987a7253ac413176f2b074cf7815e54nat
    } else if i == 10 {
        0xf3392b0822b70005940c7a398e4b70f3nat
    } else if i == 11 {
        0xe7159475a2c29b7443b29c7fa6e889d9nat
    } else if i == 12 {
        0xd097f3bdfd2022b8845ad8f792aa5825nat
    } else if i == 13 {
        0xa9f746462d870fdf8a65dc1f90e061e5nat
    } else if i == 14 {
        0x70d869a156d2a1b890bb3df62baf32f7nat
    } else if i == 15 {
        0x31be135f97d08fd981231505542fcfa6nat
    } else if i == 16 {
        0x9aa508b5b7a84e1c677de54f3e99bc9nat
    } else if i == 17 {
        0x5d6af8dedb81196699c329225ee604nat
    } else if i == 18 {
        0x2216e584f5fa1ea926041bedfe98nat
    } else if i == 19 {
        0x48a170391f7dc42444e8fa2nat
    } else {
        0
    }
}

fn tick_multiplier_exec(i: u32) -> (c: u128)
    requires
        i < 20,
    ensures
        c == tick_multiplier(i as nat),
{
    if i == 0 {
        0xfffcb933bd6fad37aa2d162d1a594001u128
    } else if i == 1 {
        0xfff97272373d413259a46990580e213au128
    } else if i == 2 {
        0xfff2e50f5f656932ef12357cf3c7fdccu128
    } else if i == 3 {
        0xffe5caca7e10e4e61c3624eaa0941cd0u128
    } else if i == 4 {
        0xffcb9843d60f6159c9db58835c926644u128
    } else if i == 5 {
        0xff973b41fa98c081472e6896dfb254c0u128
    } else if i == 6 {
        0xff2ea16466c96a3843ec78b326b52861u128
    } else if i == 7 {
        0xfe5dee046a99a2a811c461f1969c3053u128
    } else if i == 8 {
        0xfcbe86c7900a88aedcffc83b479aa3a4u128
    } else if i == 9 {
        0xf987a7253ac413176f2b074cf7815e54u128
    } else if i == 10 {
        0xf3392b0822b70005940c7a398e4b70f3u128
    } else if i == 11 {
        0xe7159475a2c29b7443b29c7fa6e889d9u128
    } else if i == 12 {
        0xd097f3bdfd2022b8845ad8f792aa5825u128
    } else if i == 13 {
        0xa9f746462d870fdf8a65dc1f90e061e5u128
    } else if i == 14 {
        0x70d869a156d2a1b890bb3df62baf32f7u128
    } else if i == 15 {
        0x31be135f97d08fd981231505542fcfa6u128
    } else if i == 16 {
        0x9aa508b5b7a84e1c677de54f3e99bc9u128
    } else if i == 17 {
        0x5d6af8dedb81196699c329225ee604u128
    } else if i == 18 {
        0x2216e584f5fa1ea926041bedfe98u128
    } else if i == 19 {
        0x48a170391f7dc42444e8fa2u128
    } else {
        0
    }
}

/// Whether bit `i` of `x` is set.
pub open spec fn bit_set(x: nat, i: nat) -> bool {
    (x / pow2(i)) % 2 == 1
}

/// Multiply `r` by the multipliers of the set bits of `abs_tick`, from bit
/// `i` up to bit 19, truncating to Q128.128 after each one.
pub open spec fn ratio_chain(abs_tick: nat, i: nat, r: nat) -> nat
    decreases 20 - i,
{
    if i >= 20 {
        r
    } else {
        let next = if bit_set(abs_tick, i) {
            (r * tick_multiplier(i)) / q128()
        } else {
            r
        };
        ratio_chain(abs_tick, i + 1, next)
    }
}

/// The same chain with every multiplier applied.
pub open spec fn ratio_chain_all(i: nat, r: nat) -> nat
    decreases 20 - i,
{
    if i >= 20 {
        r
    } else {
        ratio_chain_all(i + 1, (r * tick_multiplier(i)) / q128())
    }
}

/// The Q64.96 square-root price at `tick`, as the pool contract computes it:
/// the multiplier chain in Q128.128, inverted for positive ticks, then
/// converted to Q64.96 rounding up.
pub open spec fn sqrt_ratio_value(tick: int) -> nat {
    let abs_tick: nat = if tick < 0 {
        (-tick) as nat
    } else {
        tick as nat
    };
    let r = ratio_chain(abs_tick, 0, q128());
    let inv = if tick > 0 {
        ((u256_modulus() - 1) as nat) / r
    } else {
        r
    };
    div_ceil(inv, 0x1_0000_0000nat)
}

proof fn lemma_multiplier_below_one(i: nat)
    requires
        i < 20,
    ensures
        0 < tick_multiplier(i) < q128(),
{
}

proof fn lemma_shift_step_le(r: nat, c: nat)
    requires
        c < q128(),
    ensures
        (r * c) / q128() <= r,
{
    lemma_mul_inequality(c as int, q128() as int, r as int);
    lemma_mul_is_commutative(c as int, r as int);
    lemma_div_is_ordered((r * c) as int, (q128() * r) as int, q128() as int);
    lemma_div_multiples_vanish(r as int, q128() as int);
}

proof fn lemma_shift_step_mono(r1: nat, r2: nat, c: nat)
    requires
        r1 <= r2,
    ensures
        (r1 * c) / q128() <= (r2 * c) / q128(),
{
    lemma_mul_inequality(r1 as int, r2 as int, c as int);
    lemma_div_is_ordered((r1 * c) as int, (r2 * c) as int, q128() as int);
}

proof fn lemma_chain_all_mono(i: nat, r1: nat, r2: nat)
    requires
        r1 <= r2,
    ensures
        ratio_chain_all(i, r1) <= ratio_chain_all(i, r2),
    decreases 20 - i,
{
    if i < 20 {
        lemma_shift_step_mono(r1, r2, tick_multiplier(i));
        lemma_chain_all_mono(i + 1, (r1 * tick_multiplier(i)) / q128(), (r2 * tick_multiplier(i)) / q128());
    }
}

/// Skipping multipliers never gives a smaller ratio than applying them all.
proof fn lemma_chain_ge_all(t: nat, i: nat, r: nat)
    ensures
        ratio_chain(t, i, r) >= ratio_chain_all(i, r),
    decreases 20 - i,
{
    if i < 20 {
        let c = tick_multiplier(i);
        let all = (r * c) / q128();
        lemma_multiplier_below_one(i);
        lemma_shift_step_le(r, c);
        if bit_set(t, i) {
            lemma_chain_ge_all(t, i + 1, all);
        } else {
            lemma_chain_ge_all(t, i + 1, r);
            lemma_chain_all_mono(i + 1, all, r);
        }
    }
}

/// The ratio stays within Q128.128 one.
proof fn lemma_chain_bounded(t: nat, i: nat, r: nat)
    requires
        r <= q128(),
    ensures
        ratio_chain(t, i, r) <= q128(),
    decreases 20 - i,
{
    if i < 20 {
        lemma_multiplier_below_one(i);
        lemma_shift_step_le(r, tick_multiplier(i));
        if bit_set(t, i) {
            lemma_chain_bounded(t, i + 1, (r * tick_multiplier(i)) / q128());
        } else {
            lemma_chain_bounded(t, i + 1, r);
        }
    }
}

/// With every multiplier applied the ratio is still positive.
proof fn lemma_chain_all_value()
    ensures
        ratio_chain_all(0, q128()) == 5800441176149320nat,
{
    assert(ratio_chain_all(20, 5800441176149320nat) == 5800441176149320nat);
    assert((1404950724947776134837143967nat * 0x48a170391f7dc42444e8fa2nat) / q128() == 5800441176149320nat);
    assert(ratio_chain_all(19, 1404950724947776134837143967nat) == 5800441176149320nat);
    assert((691450548841240133896843047535567nat * 0x2216e584f5fa1ea926041bedfe98nat) / q128() == 1404950724947776134837143967nat);
    assert(ratio_chain_all(18, 691450548841240133896843047535567nat) == 5800441176149320nat);
    assert((485077512873820763967752669154895175nat * 0x5d6af8dedb81196699c329225ee604nat) / q128() == 691450548841240133896843047535567nat);
    assert(ratio_chain_all(17, 485077512873820763967752669154895175nat) == 5800441176149320nat);
    assert((12848018414553970828728179856918040433nat * 0x9aa508b5b7a84e1c677de54f3e99bc9nat) / q128() == 485077512873820763967752669154895175nat);
    assert(ratio_chain_all(16, 12848018414553970828728179856918040433nat) == 5800441176149320nat);
    assert((66122407008436832627027740713496573148nat * 0x31be135f97d08fd981231505542fcfa6nat) / q128() == 12848018414553970828728179856918040433nat);
    assert(ratio_chain_all(15, 66122407008436832627027740713496573148nat) == 5800441176149320nat);
    assert((150004713758184102711002566140788444796nat * 0x70d869a156d2a1b890bb3df62baf32f7nat) / q128() == 66122407008436832627027740713496573148nat);
    assert(ratio_chain_all(14, 150004713758184102711002566140788444796nat) == 5800441176149320nat);
    assert((225934749830749445986089663015556949343nat * 0xa9f746462d870fdf8a65dc1f90e061e5nat) / q128() == 150004713758184102711002566140788444796nat);
    assert(ratio_chain_all(13, 225934749830749445986089663015556949343nat) == 5800441176149320nat);
    assert((277282266700509388632609933215391170106nat * 0xd097f3bdfd2022b8845ad8f792aa5825nat) / q128() == 225934749830749445986089663015556949343nat);
    assert(ratio_chain_all(12, 277282266700509388632609933215391170106nat) == 5800441176149320nat);
    assert((307179074178916392659402722612948179612nat * 0xe7159475a2c29b7443b29c7fa6e889d9nat) / q128() == 277282266700509388632609933215391170106nat);
    assert(ratio_chain_all(11, 307179074178916392659402722612948179612nat) == 5800441176149320nat);
    assert((323315401242583425022802937239550140918nat * 0xf3392b0822b70005940c7a398e4b70f3nat) / q128() == 307179074178916392659402722612948179612nat);
    assert(ratio_chain_all(10, 323315401242583425022802937239550140918nat) == 5800441176149320nat);
    assert((331698704829854243503582989311158516586nat * 0xf987a7253ac413176f2b074cf7815e54nat) / q128() == 323315401242583425022802937239550140918nat);
    assert(ratio_chain_all(9, 331698704829854243503582989311158516586nat) == 5800441176149320nat);
    assert((335971522311117552149334092109581418674nat * 0xfcbe86c7900a88aedcffc83b479aa3a4nat) / q128() == 331698704829854243503582989311158516586nat);
    assert(ratio_chain_all(8, 335971522311117552149334092109581418674nat) == 5800441176149320nat);
    assert((338128527259088467778511436198880488164nat * 0xfe5dee046a99a2a811c461f1969c3053nat) / q128() == 335971522311117552149334092109581418674nat);
    assert(ratio_chain_all(7, 338128527259088467778511436198880488164nat) == 5800441176149320nat);
    assert((339212217342146842559531600927033253847nat * 0xff2ea16466c96a3843ec78b326b52861nat) / q128() == 338128527259088467778511436198880488164nat);
    assert(ratio_chain_all(6, 339212217342146842559531600927033253847nat) == 5800441176149320nat);
    assert((339755364134575681238502878529008278326nat * 0xff973b41fa98c081472e6896dfb254c0nat) / q128() == 339212217342146842559531600927033253847nat);
    assert(ratio_chain_all(5, 339755364134575681238502878529008278326nat) == 5800441176149320nat);
    assert((340027263576413978334042125129128142263nat * 0xffcb9843d60f6159c9db58835c926644nat) / q128() == 339755364134575681238502878529008278326nat);
    assert(ratio_chain_all(4, 340027263576413978334042125129128142263nat) == 5800441176149320nat);
    assert((340163294884840501567246455576441303173nat * 0xffe5caca7e10e4e61c3624eaa0941cd0nat) / q128() == 340027263576413978334042125129128142263nat);
    assert(ratio_chain_all(3, 340163294884840501567246455576441303173nat) == 5800441176149320nat);
    assert((340231330945450418515964920540021147198nat * 0xfff2e50f5f656932ef12357cf3c7fdccnat) / q128() == 340163294884840501567246455576441303173nat);
    assert(ratio_chain_all(2, 340231330945450418515964920540021147198nat) == 5800441176149320nat);
    assert((340265354078544963557816517032075149313nat * 0xfff97272373d413259a46990580e213anat) / q128() == 340231330945450418515964920540021147198nat);
    assert(ratio_chain_all(1, 340265354078544963557816517032075149313nat) == 5800441176149320nat);
    assert((340282366920938463463374607431768211456nat * 0xfffcb933bd6fad37aa2d162d1a594001nat) / q128() == 340265354078544963557816517032075149313nat);
    assert(ratio_chain_all(0, 340282366920938463463374607431768211456nat) == 5800441176149320nat);
}


/// The ratio with the multipliers of bits 0 to `k - 1` all applied.
pub open spec fn prefix_all(k: nat) -> nat
    decreases k,
{
    if k == 0 {
        q128()
    } else {
        (prefix_all((k - 1) as nat) * tick_multiplier((k - 1) as nat)) / q128()
    }
}

/// The values of the full prefixes.
proof fn lemma_prefix_values()
    ensures
        prefix_all(0) == 340282366920938463463374607431768211456nat,
        prefix_all(1) == 340265354078544963557816517032075149313nat,
        prefix_all(2) == 340231330945450418515964920540021147198nat,
        prefix_all(3) == 340163294884840501567246455576441303173nat,
        prefix_all(4) == 340027263576413978334042125129128142263nat,
        prefix_all(5) == 339755364134575681238502878529008278326nat,
        prefix_all(6) == 339212217342146842559531600927033253847nat,
        prefix_all(7) == 338128527259088467778511436198880488164nat,
        prefix_all(8) == 335971522311117552149334092109581418674nat,
        prefix_all(9) == 331698704829854243503582989311158516586nat,
        prefix_all(10) == 323315401242583425022802937239550140918nat,
        prefix_all(11) == 307179074178916392659402722612948179612nat,
        prefix_all(12) == 277282266700509388632609933215391170106nat,
        prefix_all(13) == 225934749830749445986089663015556949343nat,
        prefix_all(14) == 150004713758184102711002566140788444796nat,
        prefix_all(15) == 66122407008436832627027740713496573148nat,
        prefix_all(16) == 12848018414553970828728179856918040433nat,
        prefix_all(17) == 485077512873820763967752669154895175nat,
        prefix_all(18) == 691450548841240133896843047535567nat,
        prefix_all(19) == 1404950724947776134837143967nat,
{
    assert(prefix_all(0) == q128());
    assert((340282366920938463463374607431768211456nat * 0xfffcb933bd6fad37aa2d162d1a594001nat) / q128() == 340265354078544963557816517032075149313nat);
    assert(prefix_all(1) == 340265354078544963557816517032075149313nat);
    assert((340265354078544963557816517032075149313nat * 0xfff97272373d413259a46990580e213anat) / q128() == 340231330945450418515964920540021147198nat);
    assert(prefix_all(2) == 340231330945450418515964920540021147198nat);
    assert((340231330945450418515964920540021147198nat * 0xfff2e50f5f656932ef12357cf3c7fdccnat) / q128() == 340163294884840501567246455576441303173nat);
    assert(prefix_all(3) == 340163294884840501567246455576441303173nat);
    assert((340163294884840501567246455576441303173nat * 0xffe5caca7e10e4e61c3624eaa0941cd0nat) / q128() == 340027263576413978334042125129128142263nat);
    assert(prefix_all(4) == 340027263576413978334042125129128142263nat);
    assert((340027263576413978334042125129128142263nat * 0xffcb9843d60f6159c9db58835c926644nat) / q128() == 339755364134575681238502878529008278326nat);
    assert(prefix_all(5) == 339755364134575681238502878529008278326nat);
    assert((339755364134575681238502878529008278326nat * 0xff973b41fa98c081472e6896dfb254c0nat) / q128() == 339212217342146842559531600927033253847nat);
    assert(prefix_all(6) == 339212217342146842559531600927033253847nat);
    assert((339212217342146842559531600927033253847nat * 0xff2ea16466c96a3843ec78b326b52861nat) / q128() == 338128527259088467778511436198880488164nat);
    assert(prefix_all(7) == 338128527259088467778511436198880488164nat);
    assert((338128527259088467778511436198880488164nat * 0xfe5dee046a99a2a811c461f1969c3053nat) / q128() == 335971522311117552149334092109581418674nat);
    assert(prefix_all(8) == 335971522311117552149334092109581418674nat);
    assert((335971522311117552149334092109581418674nat * 0xfcbe86c7900a88aedcffc83b479aa3a4nat) / q128() == 331698704829854243503582989311158516586nat);
    assert(prefix_all(9) == 331698704829854243503582989311158516586nat);
    assert((331698704829854243503582989311158516586nat * 0xf987a7253ac413176f2b074cf7815e54nat) / q128() == 323315401242583425022802937239550140918nat);
    assert(prefix_all(10) == 323315401242583425022802937239550140918nat);
    assert((323315401242583425022802937239550140918nat * 0xf3392b0822b70005940c7a398e4b70f3nat) / q128() == 307179074178916392659402722612948179612nat);
    assert(prefix_all(11) == 307179074178916392659402722612948179612nat);
    assert((307179074178916392659402722612948179612nat * 0xe7159475a2c29b7443b29c7fa6e889d9nat) / q128() == 277282266700509388632609933215391170106nat);
    assert(prefix_all(12) == 277282266700509388632609933215391170106nat);
    assert((277282266700509388632609933215391170106nat * 0xd097f3bdfd2022b8845ad8f792aa5825nat) / q128() == 225934749830749445986089663015556949343nat);
    assert(prefix_all(13) == 225934749830749445986089663015556949343nat);
    assert((225934749830749445986089663015556949343nat * 0xa9f746462d870fdf8a65dc1f90e061e5nat) / q128() == 150004713758184102711002566140788444796nat);
    assert(prefix_all(14) == 150004713758184102711002566140788444796nat);
    assert((150004713758184102711002566140788444796nat * 0x70d869a156d2a1b890bb3df62baf32f7nat) / q128() == 66122407008436832627027740713496573148nat);
    assert(prefix_all(15) == 66122407008436832627027740713496573148nat);
    assert((66122407008436832627027740713496573148nat * 0x31be135f97d08fd981231505542fcfa6nat) / q128() == 12848018414553970828728179856918040433nat);
    assert(prefix_all(16) == 12848018414553970828728179856918040433nat);
    assert((12848018414553970828728179856918040433nat * 0x9aa508b5b7a84e1c677de54f3e99bc9nat) / q128() == 485077512873820763967752669154895175nat);
    assert(prefix_all(17) == 485077512873820763967752669154895175nat);
    assert((485077512873820763967752669154895175nat * 0x5d6af8dedb81196699c329225ee604nat) / q128() == 691450548841240133896843047535567nat);
    assert(prefix_all(18) == 691450548841240133896843047535567nat);
    assert((691450548841240133896843047535567nat * 0x2216e584f5fa1ea926041bedfe98nat) / q128() == 1404950724947776134837143967nat);
    assert(prefix_all(19) == 1404950724947776134837143967nat);
}

/// Each multiplier is at most the product of all those below it, by at
/// least a 25 000th of that product: moving a carry up one bit lowers the
/// ratio by that much.
proof fn lemma_multiplier_below_prefix(k: nat)
    requires
        k < 20,
    ensures
        tick_multiplier(k) <= prefix_all(k),
        25_000 * (prefix_all(k) - tick_multiplier(k)) >= prefix_all(k),
{
    lemma_prefix_values();
}

/// `x / 2^(i+1)` halves `x / 2^i`.
proof fn lemma_div_pow2_next(x: nat, i: nat)
    ensures
        x / pow2(i + 1) == (x / pow2(i)) / 2,
{
    lemma_pow2_pos(i);
    lemma_pow2_unfold(i + 1);
    lemma_div_denominator(x as int, pow2(i) as int, 2);
    assert(pow2(i + 1) == pow2(i) * 2);
}

/// The chain of `a + 1` from bit `i` on, against that of `a`: while a
/// carry is still moving up (the bits below `i` of `a` all set, of `a + 1`
/// all clear), the two ratios are the full prefix and one; once the carry
/// has landed the bits agree and the order of the ratios is kept.
proof fn lemma_chain_carry(a: nat, i: nat, ra: nat, rb: nat)
    requires
        i <= 20,
        a + 1 < pow2(20),
        ((a + 1) / pow2(i) == a / pow2(i) + 1 && ra == prefix_all(i) && rb == q128()) || ((a + 1) / pow2(i)
            == a / pow2(i) && rb <= ra),
    ensures
        ratio_chain((a + 1) as nat, i, rb) <= ratio_chain(a, i, ra),
    decreases 20 - i,
{
    let b = (a + 1) as nat;
    lemma_pow2_pos(i);
    if i >= 20 {
        lemma_pow2_pos(20);
        assert(b / pow2(20) == 0 && a / pow2(20) == 0) by {
            lemma_basic_div(b as int, pow2(20) as int);
            lemma_basic_div(a as int, pow2(20) as int);
        }
    } else {
        let c = tick_multiplier(i);
        let x = a / pow2(i);
        let y = b / pow2(i);
        lemma_div_pow2_next(a, i);
        lemma_div_pow2_next(b, i);
        if y == x + 1 {
            if x % 2 == 1 {
                assert(bit_set(a, i) && !bit_set(b, i));
                assert(y / 2 == x / 2 + 1);
                lemma_chain_carry(a, i + 1, prefix_all(i + 1), q128());
            } else {
                assert(!bit_set(a, i) && bit_set(b, i));
                assert(y / 2 == x / 2);
                lemma_multiplier_below_prefix(i);
                assert((q128() * c) / q128() == c) by {
                    lemma_div_multiples_vanish(c as int, q128() as int);
                    lemma_mul_is_commutative(c as int, q128() as int);
                }
                lemma_chain_carry(a, i + 1, ra, c);
            }
        } else {
            assert(bit_set(a, i) == bit_set(b, i));
            if bit_set(a, i) {
                lemma_shift_step_mono(rb, ra, c);
                lemma_chain_carry(a, i + 1, (ra * c) / q128(), (rb * c) / q128());
            } else {
                lemma_chain_carry(a, i + 1, ra, rb);
            }
        }
    }
}

/// The chain never rises as the tick magnitude grows.
proof fn lemma_chain_antitone(a: nat, b: nat)
    requires
        a <= b <= 887_272,
    ensures
        ratio_chain(b, 0, q128()) <= ratio_chain(a, 0, q128()),
    decreases b - a,
{
    if a < b {
        lemma_chain_antitone(a, (b - 1) as nat);
        lemma2_to64();
        assert(pow2(0) == 1);
        lemma_chain_carry((b - 1) as nat, 0, q128(), q128());
    }
}

/// One truncated multiplication keeps a relative gap of a 25 000th, less
/// one unit per multiplication so far.
proof fn lemma_gap_step(ra: nat, rb: nat, c: nat, i: nat)
    requires
        0 < c < q128(),
        rb <= ra,
        25_000 * (ra - rb) + 25_000 * i >= ra,
    ensures
        (rb * c) / q128() <= (ra * c) / q128(),
        25_000 * ((ra * c) / q128() - (rb * c) / q128()) + 25_000 * (i + 1) >= (ra * c) / q128(),
{
    let q = q128();
    let xa = (ra * c) / q;
    let xb = (rb * c) / q;
    lemma_shift_step_mono(rb, ra, c);
    lemma_fundamental_div_mod((ra * c) as int, q as int);
    lemma_fundamental_div_mod((rb * c) as int, q as int);
    let ea = (ra * c) % q;
    let eb = (rb * c) % q;
    assert(25_000 * (xa - xb) * q >= (ra - 25_000 * i) * c + 25_000 * eb - 25_000 * ea) by (nonlinear_arith)
        requires
            ra * c == q * xa + ea,
            rb * c == q * xb + eb,
            25_000 * (ra - rb) + 25_000 * i >= ra,
            c > 0,
    ;
    assert(25_000 * (xa - xb) * q > (xa - 25_000 * (i + 1)) * q) by (nonlinear_arith)
        requires
            25_000 * (xa - xb) * q >= (ra - 25_000 * i) * c + 25_000 * eb - 25_000 * ea,
            ra * c == q * xa + ea,
            i >= 0,
            0 <= ea < q,
            0 <= eb < q,
            0 < c < q,
    ;
    assert(25_000 * (xa - xb) > xa - 25_000 * (i + 1)) by (nonlinear_arith)
        requires
            25_000 * (xa - xb) * q > (xa - 25_000 * (i + 1)) * q,
            q > 0,
    ;
}

/// The chains of `a` and `a + 1` stay a 25 000th apart, less one unit per
/// multiplication (see `lemma_chain_carry` for the two phases).
proof fn lemma_chain_gap(a: nat, i: nat, ra: nat, rb: nat)
    requires
        i <= 20,
        a + 1 < pow2(20),
        ((a + 1) / pow2(i) == a / pow2(i) + 1 && ra == prefix_all(i) && rb == q128()) || ((a + 1) / pow2(i)
            == a / pow2(i) && rb <= ra && 25_000 * (ra - rb) + 25_000 * i >= ra),
    ensures
        ratio_chain((a + 1) as nat, i, rb) <= ratio_chain(a, i, ra),
        25_000 * (ratio_chain(a, i, ra) - ratio_chain((a + 1) as nat, i, rb)) + 500_000 >= ratio_chain(a, i, ra),
    decreases 20 - i,
{
    let b = (a + 1) as nat;
    lemma_pow2_pos(i);
    if i >= 20 {
        lemma_pow2_pos(20);
        assert(b / pow2(20) == 0 && a / pow2(20) == 0) by {
            lemma_basic_div(b as int, pow2(20) as int);
            lemma_basic_div(a as int, pow2(20) as int);
        }
    } else {
        let c = tick_multiplier(i);
        let x = a / pow2(i);
        let y = b / pow2(i);
        lemma_div_pow2_next(a, i);
        lemma_div_pow2_next(b, i);
        lemma_multiplier_below_one(i);
        if y == x + 1 {
            if x % 2 == 1 {
                assert(bit_set(a, i) && !bit_set(b, i));
                assert(y / 2 == x / 2 + 1);
                lemma_chain_gap(a, i + 1, prefix_all(i + 1), q128());
            } else {
                assert(!bit_set(a, i) && bit_set(b, i));
                assert(y / 2 == x / 2);
                lemma_multiplier_below_prefix(i);
                assert((q128() * c) / q128() == c) by {
                    lemma_div_multiples_vanish(c as int, q128() as int);
                    lemma_mul_is_commutative(c as int, q128() as int);
                }
                lemma_chain_gap(a, i + 1, ra, c);
            }
        } else {
            assert(bit_set(a, i) == bit_set(b, i));
            if bit_set(a, i) {
                lemma_gap_step(ra, rb, c, i);
                lemma_chain_gap(a, i + 1, (ra * c) / q128(), (rb * c) / q128());
            } else {
                lemma_chain_gap(a, i + 1, ra, rb);
            }
        }
    }
}

/// Rounding up by `d` separates dividends at least `d` apart.
proof fn lemma_div_ceil_strict(x: nat, y: nat, d: nat)
    requires
        d > 0,
        x + d <= y,
    ensures
        div_ceil(x, d) < div_ceil(y, d),
{
    lemma_div_ceil_bounds(x, d);
    lemma_div_ceil_bounds(y, d);
    let cx = div_ceil(x, d);
    let cy = div_ceil(y, d);
    assert(cx < cy) by (nonlinear_arith)
        requires
            d > 0,
            x + d <= y,
            y <= cy * d,
            cx * d < x + d,
    ;
}

/// Dividing `m` by two numbers `g` apart, both at most 2^128, gives
/// quotients at least `g` apart.
proof fn lemma_inverse_gap(m: nat, u: nat, v: nat)
    requires
        0 < u < v <= q128(),
        m == (u256_modulus() - 1) as nat,
    ensures
        m / u >= m / v + (v - u),
{
    lemma_fundamental_div_mod(m as int, u as int);
    lemma_fundamental_div_mod(m as int, v as int);
    let qu = m / u;
    let qv = m / v;
    let ru = m % u;
    let rv = m % v;
    assert(u * v < m) by (nonlinear_arith)
        requires
            0 < u < v,
            v <= q128(),
            m + 1 == q128() * q128(),
    ;
    assert((qu - qv) * (u * v) == m * (v - u) - ru * v + rv * u) by (nonlinear_arith)
        requires
            m == u * qu + ru,
            m == v * qv + rv,
    ;
    assert((qu - qv) * (u * v) > (v - u - 1) * (u * v)) by (nonlinear_arith)
        requires
            (qu - qv) * (u * v) == m * (v - u) - ru * v + rv * u,
            0 <= ru < u,
            0 <= rv,
            u * v < m,
            u < v,
    ;
    assert(u * v > 0) by (nonlinear_arith)
        requires
            0 < u < v,
    ;
    assert(qu - qv > v - u - 1) by (nonlinear_arith)
        requires
            (qu - qv) * (u * v) > (v - u - 1) * (u * v),
            u * v > 0,
    ;
}

/// Tick 0 applies no multiplier.
proof fn lemma_chain_of_zero(i: nat, r: nat)
    ensures
        ratio_chain(0, i, r) == r,
    decreases 20 - i,
{
    if i < 20 {
        lemma_pow2_pos(i);
        lemma_basic_div(0, pow2(i) as int);
        assert(!bit_set(0, i));
        lemma_chain_of_zero(i + 1, r);
    }
}

/// The square-root price rises strictly from one tick to the next.
pub proof fn lemma_sqrt_ratio_strict(t: int)
    requires
        MIN_TICK <= t < MAX_TICK,
    ensures
        sqrt_ratio_value(t) < sqrt_ratio_value(t + 1),
{
    let d = 0x1_0000_0000nat;
    let m = (u256_modulus() - 1) as nat;
    lemma_chain_all_value();
    lemma2_to64();
    assert(pow2(0) == 1);
    let a: nat = if t < 0 { (-(t + 1)) as nat } else { t as nat };
    let ca = ratio_chain(a, 0, q128());
    let cb = ratio_chain((a + 1) as nat, 0, q128());
    lemma_chain_gap(a, 0, q128(), q128());
    lemma_chain_ge_all(a, 0, q128());
    lemma_chain_ge_all((a + 1) as nat, 0, q128());
    lemma_chain_bounded(a, 0, q128());
    assert(ca - cb >= 0x2_0000_0000);
    if t < 0 {
        lemma_div_ceil_strict(cb, ca, d);
    } else {
        lemma_inverse_gap(m, cb, ca);
        lemma_div_ceil_strict(m / ca, m / cb, d);
        if t == 0 {
            lemma_chain_of_zero(0, q128());
            assert(ca == q128());
            assert(m / q128() == 0xffff_ffff_ffff_ffff_ffff_ffff_ffff_ffffnat);
            assert(div_ceil(q128(), d) == div_ceil(0xffff_ffff_ffff_ffff_ffff_ffff_ffff_ffffnat, d));
        }
    }
}

/// Rounding up keeps the order of the dividends.
proof fn lemma_div_ceil_mono(x: nat, y: nat, d: nat)
    requires
        d > 0,
        x <= y,
    ensures
        div_ceil(x, d) <= div_ceil(y, d),
{
    lemma_div_ceil_bounds(x, d);
    lemma_div_ceil_bounds(y, d);
    let cx = div_ceil(x, d);
    let cy = div_ceil(y, d);
    assert(cx <= cy) by (nonlinear_arith)
        requires
            d > 0,
            x <= y,
            y <= cy * d,
            cx * d < x + d,
    ;
}

/// The square-root price never falls as the tick rises.
pub proof fn lemma_sqrt_ratio_monotone(t1: int, t2: int)
    requires
        MIN_TICK <= t1 <= t2 <= MAX_TICK,
    ensures
        sqrt_ratio_value(t1) <= sqrt_ratio_value(t2),
{
    let m1 = (u256_modulus() - 1) as nat;
    let d = 0x1_0000_0000nat;
    let a1: nat = if t1 < 0 { (-t1) as nat } else { t1 as nat };
    let a2: nat = if t2 < 0 { (-t2) as nat } else { t2 as nat };
    let r1 = ratio_chain(a1, 0, q128());
    let r2 = ratio_chain(a2, 0, q128());
    lemma_chain_bounded(a1, 0, q128());
    lemma_chain_bounded(a2, 0, q128());
    lemma_chain_ge_all(a1, 0, q128());
    lemma_chain_ge_all(a2, 0, q128());
    lemma_chain_all_value();
    if t2 <= 0 {
        lemma_chain_antitone(a2, a1);
        lemma_div_ceil_mono(r1, r2, d);
    } else if t1 > 0 {
        lemma_chain_antitone(a1, a2);
        lemma_div_is_ordered_by_denominator(m1 as int, r2 as int, r1 as int);
        lemma_div_ceil_mono(m1 / r1, m1 / r2, d);
    } else {
        // t1 <= 0 < t2: both sides of the price of tick 0.
        lemma_div_is_ordered_by_denominator(m1 as int, r2 as int, q128() as int);
        assert(m1 / q128() == 0xffff_ffff_ffff_ffff_ffff_ffff_ffff_ffffnat);
        lemma_div_ceil_mono(r1, q128(), d);
        lemma_div_ceil_mono(0xffff_ffff_ffff_ffff_ffff_ffff_ffff_ffffnat, m1 / r2, d);
        assert(div_ceil(q128(), d) == 0x1_0000_0000_0000_0000_0000_0000nat);
        assert(div_ceil(0xffff_ffff_ffff_ffff_ffff_ffff_ffff_ffffnat, d) == 0x1_0000_0000_0000_0000_0000_0000nat);
    }
}

/// The chain for the largest tick magnitude, step by step.
proof fn lemma_chain_extreme_value()
    ensures
        ratio_chain(887_272, 0, q128()) == 18447437462383981825nat,
{
    vstd::arithmetic::power2::lemma2_to64();
    assert(ratio_chain(887_272, 20, 18447437462383981825nat) == 18447437462383981825nat);
    assert(bit_set(887_272, 19));
    assert((4468236096036213022677869620526nat * tick_multiplier(19)) / q128() == 18447437462383981825nat);
    assert(ratio_chain(887_272, 19, 4468236096036213022677869620526nat) == 18447437462383981825nat);
    assert(bit_set(887_272, 18));
    assert((2199055273679667890264176287186730611nat * tick_multiplier(18)) / q128() == 4468236096036213022677869620526nat);
    assert(ratio_chain(887_272, 18, 2199055273679667890264176287186730611nat) == 18447437462383981825nat);
    assert(!bit_set(887_272, 17));
    assert(ratio_chain(887_272, 17, 2199055273679667890264176287186730611nat) == 18447437462383981825nat);
    assert(bit_set(887_272, 16));
    assert((58245335850494778643666308752178602959nat * tick_multiplier(16)) / q128() == 2199055273679667890264176287186730611nat);
    assert(ratio_chain(887_272, 16, 58245335850494778643666308752178602959nat) == 18447437462383981825nat);
    assert(bit_set(887_272, 15));
    assert((299759984706031786325544380651874553391nat * tick_multiplier(15)) / q128() == 58245335850494778643666308752178602959nat);
    assert(ratio_chain(887_272, 15, 299759984706031786325544380651874553391nat) == 18447437462383981825nat);
    assert(!bit_set(887_272, 14));
    assert(ratio_chain(887_272, 14, 299759984706031786325544380651874553391nat) == 18447437462383981825nat);
    assert(!bit_set(887_272, 13));
    assert(ratio_chain(887_272, 13, 299759984706031786325544380651874553391nat) == 18447437462383981825nat);
    assert(!bit_set(887_272, 12));
    assert(ratio_chain(887_272, 12, 299759984706031786325544380651874553391nat) == 18447437462383981825nat);
    assert(bit_set(887_272, 11));
    assert((332080358666931741096696533686537939851nat * tick_multiplier(11)) / q128() == 299759984706031786325544380651874553391nat);
    assert(ratio_chain(887_272, 11, 332080358666931741096696533686537939851nat) == 18447437462383981825nat);
    assert(!bit_set(887_272, 10));
    assert(ratio_chain(887_272, 10, 332080358666931741096696533686537939851nat) == 18447437462383981825nat);
    assert(!bit_set(887_272, 9));
    assert(ratio_chain(887_272, 9, 332080358666931741096696533686537939851nat) == 18447437462383981825nat);
    assert(bit_set(887_272, 8));
    assert((336358092468829139771578271041138980598nat * tick_multiplier(8)) / q128() == 332080358666931741096696533686537939851nat);
    assert(ratio_chain(887_272, 8, 336358092468829139771578271041138980598nat) == 18447437462383981825nat);
    assert(bit_set(887_272, 7));
    assert((338517579275194439321187592667164221528nat * tick_multiplier(7)) / q128() == 336358092468829139771578271041138980598nat);
    assert(ratio_chain(887_272, 7, 338517579275194439321187592667164221528nat) == 18447437462383981825nat);
    assert(bit_set(887_272, 6));
    assert((339602516256333450911508783463471979131nat * tick_multiplier(6)) / q128() == 338517579275194439321187592667164221528nat);
    assert(ratio_chain(887_272, 6, 339602516256333450911508783463471979131nat) == 18447437462383981825nat);
    assert(bit_set(887_272, 5));
    assert((340146287995602323631171512101879684304nat * tick_multiplier(5)) / q128() == 339602516256333450911508783463471979131nat);
    assert(ratio_chain(887_272, 5, 340146287995602323631171512101879684304nat) == 18447437462383981825nat);
    assert(!bit_set(887_272, 4));
    assert(ratio_chain(887_272, 4, 340146287995602323631171512101879684304nat) == 18447437462383981825nat);
    assert(bit_set(887_272, 3));
    assert((340282366920938463463374607431768211456nat * tick_multiplier(3)) / q128() == 340146287995602323631171512101879684304nat);
    assert(ratio_chain(887_272, 3, 340282366920938463463374607431768211456nat) == 18447437462383981825nat);
    assert(!bit_set(887_272, 2));
    assert(ratio_chain(887_272, 2, 340282366920938463463374607431768211456nat) == 18447437462383981825nat);
    assert(!bit_set(887_272, 1));
    assert(ratio_chain(887_272, 1, 340282366920938463463374607431768211456nat) == 18447437462383981825nat);
    assert(!bit_set(887_272, 0));
    assert(ratio_chain(887_272, 0, 340282366920938463463374607431768211456nat) == 18447437462383981825nat);
}

/// The prices at the two ends of the tick range.
pub proof fn lemma_sqrt_ratio_at_ends()
    ensures
        sqrt_ratio_value(MIN_TICK as int) == 4_295_128_739nat,
        sqrt_ratio_value(MAX_TICK as int) == 0xfffd8963efd1fc6a506488495d951d5263988d26nat,
{
    lemma_chain_extreme_value();
    assert(div_ceil(18447437462383981825nat, 0x1_0000_0000nat) == 4_295_128_739nat);
    assert(((u256_modulus() - 1) as nat) / 18447437462383981825nat == 6276865796315986613307619852238232712866172378830071145882nat);
    assert(div_ceil(6276865796315986613307619852238232712866172378830071145882nat, 0x1_0000_0000nat) == 0xfffd8963efd1fc6a506488495d951d5263988d26nat);
}

/// Smallest valid Q64.96 square-root price (at `MIN_TICK`).
pub fn min_sqrt_ratio() -> (r: U256)
    ensures
        r@ == 4_295_128_739nat,
{
    U256::from_u128(MIN_SQRT_RATIO)
}

/// One past the largest valid Q64.96 square-root price.
pub fn max_sqrt_ratio() -> (r: U256)
    ensures
        r@ == 0xfffd8963efd1fc6a506488495d951d5263988d26nat,
{
    U256([0x5d951d5263988d26, 0xefd1fc6a50648849, 0x0000fffd8963, 0])
}

/// `(a * b) >> 128`, modulo 2^256.
fn mul_shift_128(a: &U256, b: &U256) -> (r: U256)
    ensures
        r@ == ((a@ * b@) / q128()) % u256_modulus(),
{
    let (lo, hi) = a.full_mul(b);
    let lo_shifted = lo.shr(128);
    let hi_shifted = hi.shl(128);
    let r = hi_shifted.wrapping_add(&lo_shifted);
    proof {
        lemma_pow2_limb_values();
        let m = u256_modulus() as int;
        let q = q128() as int;
        assert(m == q * q);
        let n = (a@ * b@) as int;
        let l = lo@ as int;
        let h = hi@ as int;
        assert(n == l + h * m);
        assert(n == l + (h * q) * q) by {
            lemma_mul_is_associative(h, q, q);
        }
        lemma_hoist_over_denominator(l, h * q, q as nat);
        lemma_value_bound(lo.0);
        lemma_div_is_ordered(l, m, q);
        lemma_div_multiples_vanish(q, q);
        let lq = l / q;
        lemma_small_mod(lq as nat, m as nat);
        lemma_add_mod_noop(h * q, lq, m);
        lemma_mod_twice(h * q + lq, m);
        assert(hi_shifted@ == (h * q) % m);
        assert(lo_shifted@ == lq);
    }
    r
}

/// Whether bit `i` of a `u32` is set, as the spec reads it.
proof fn lemma_u32_bit(x: u32, i: u32)
    requires
        i < 32,
    ensures
        ((x & (1u32 << i)) != 0) == bit_set(x as nat, i as nat),
{
    assert(((x & (1u32 << i)) != 0) == ((x >> i) % 2 == 1)) by (bit_vector)
        requires
            i < 32,
    ;
    lemma_u32_shr_is_div(x, i);
}

/// Compute `sqrt_price_x96` from a tick, as the pool contract does.
pub fn sqrt_ratio_at_tick(tick: i32) -> (r: U256)
    requires
        MIN_TICK <= tick <= MAX_TICK,
    ensures
        r@ == sqrt_ratio_value(tick as int),
{
    let abs_tick: u32 = if tick < 0 {
        (-tick) as u32
    } else {
        tick as u32
    };
    let mut ratio = U256([0, 0, 1, 0]);
    proof {
        lemma_pow2_limb_values();
    }
    let mut i: u32 = 0;
    while i < 20
        invariant
            i <= 20,
            ratio@ <= q128(),
            ratio_chain(abs_tick as nat, 0, q128()) == ratio_chain(abs_tick as nat, i as nat, ratio@),
        decreases 20 - i,
    {
        let mul = tick_multiplier_exec(i);
        proof {
            lemma_u32_bit(abs_tick, i);
            lemma_multiplier_below_one(i as nat);
        }
        if abs_tick & (1u32 << i) != 0 {
            let mul_u256 = U256::from_u128(mul);
            let ghost before = ratio@;
            ratio = mul_shift_128(&ratio, &mul_u256);
            proof {
                lemma_shift_step_le(before, mul as nat);
                lemma_small_mod((before * (mul as nat)) / q128(), u256_modulus());
            }
        }
        i = i + 1;
    }
    proof {
        assert(ratio_chain(abs_tick as nat, 20, ratio@) == ratio@);
        assert(abs_tick as nat == (if tick < 0 { (-tick) as nat } else { tick as nat }));
        lemma_chain_bounded(abs_tick as nat, 0, q128());
        lemma_chain_ge_all(abs_tick as nat, 0, q128());
        lemma_chain_all_value();
    }
    if tick > 0 {
        ratio = U256::max_value().div(&ratio);
    }
    let ghost inv = ratio@;
    let two32: u64 = 1u64 << 32;
    assert(two32 == 0x1_0000_0000u64) by (bit_vector)
        requires
            two32 == 1u64 << 32,
    ;
    let q32 = U256::from_u64(two32);
    let remainder = ratio.rem(&q32);
    let mut sqrt_price_x96 = ratio.shr(32);
    proof {
        lemma_value_bound(ratio.0);
        lemma_div_is_ordered(ratio@ as int, u256_modulus() as int, 0x1_0000_0000int);
        assert(u256_modulus() / 0x1_0000_0000nat == 0x1_0000_0000_0000_0000_0000_0000_0000_0000_0000_0000_0000_0000_0000_0000nat);
    }
    if !remainder.is_zero() {
        let one = U256([1, 0, 0, 0]);
        let before = sqrt_price_x96;
        sqrt_price_x96 = sqrt_price_x96.wrapping_add(&one);
        proof {
            lemma_small_mod(before@ + 1, u256_modulus());
        }
    }
    proof {
        assert(inv == (if tick > 0 { ((u256_modulus() - 1) as nat) / ratio_chain(abs_tick as nat, 0, q128()) } else { ratio_chain(abs_tick as nat, 0, q128()) }));
    }
    sqrt_price_x96
}

// ============================================================================
// Amount deltas
// ============================================================================

/// The smaller of two numbers.
pub open spec fn min_nat(a: nat, b: nat) -> nat {
    if a <= b {
        a
    } else {
        b
    }
}

/// The larger of two numbers.
pub open spec fn max_nat(a: nat, b: nat) -> nat {
    if a <= b {
        b
    } else {
        a
    }
}

/// Token0 needed to move between two square-root prices:
/// `L * 2^96 * (sb - sa) / sb / sa`, each division rounded the given way.
pub open spec fn amount0_value(sqrt_a: nat, sqrt_b: nat, liquidity: nat, round_up: bool) -> nat {
    let sa = min_nat(sqrt_a, sqrt_b);
    let sb = max_nat(sqrt_a, sqrt_b);
    let temp = mul_div_value(liquidity * q96(), (sb - sa) as nat, sb, round_up);
    if round_up {
        div_ceil(temp, sa)
    } else {
        temp / sa
    }
}

/// `div_ceil(x, d)` is the least multiple count that covers `x`.
proof fn lemma_div_ceil_bounds(x: nat, d: nat)
    requires
        d > 0,
    ensures
        x <= div_ceil(x, d) * d,
        div_ceil(x, d) * d < x + d,
{
    vstd::arithmetic::div_mod::lemma_fundamental_div_mod(x as int, d as int);
    let q = (x / d) as int;
    let r = (x % d) as int;
    if r == 0 {
        assert(div_ceil(x, d) * d == x) by (nonlinear_arith)
            requires
                x == d * q + r,
                r == 0,
                div_ceil(x, d) == q,
        ;
    } else {
        assert(x <= div_ceil(x, d) * d < x + d) by (nonlinear_arith)
            requires
                x == d * q + r,
                0 < r < d,
                div_ceil(x, d) == q + 1,
        ;
    }
}

/// A count `c` with `x <= c * d < x + d` is `div_ceil(x, d)`.
proof fn lemma_div_ceil_unique(x: nat, d: nat, c: nat)
    requires
        d > 0,
        x <= c * d,
        c * d < x + d,
    ensures
        c == div_ceil(x, d),
{
    lemma_div_ceil_bounds(x, d);
    let e = div_ceil(x, d);
    assert(c == e) by (nonlinear_arith)
        requires
            d > 0,
            x <= c * d,
            c * d < x + d,
            x <= e * d,
            e * d < x + d,
    ;
}

/// Rounding up twice is rounding up once by the product.
proof fn lemma_div_ceil_nested(x: nat, b: nat, a: nat)
    requires
        a > 0,
        b > 0,
    ensures
        div_ceil(div_ceil(x, b), a) == div_ceil(x, a * b),
{
    let c1 = div_ceil(x, b);
    let c2 = div_ceil(c1, a);
    lemma_div_ceil_bounds(x, b);
    lemma_div_ceil_bounds(c1, a);
    assert(x <= c2 * (a * b) && c2 * (a * b) < x + a * b) by (nonlinear_arith)
        requires
            a > 0,
            b > 0,
            x <= c1 * b,
            c1 * b < x + b,
            c1 <= c2 * a,
            c2 * a < c1 + a,
    ;
    assert(a * b > 0) by (nonlinear_arith)
        requires
            a > 0,
            b > 0,
    ;
    lemma_div_ceil_unique(x, (a * b) as nat, c2);
}

/// Token0 between two square-root prices is one rounding of the exact
/// rational `L * 2^96 * (sb - sa) / (sa * sb)`, and does not depend on the
/// order of the two prices.
pub proof fn lemma_amount0_closed_form(sqrt_a: nat, sqrt_b: nat, liquidity: nat, round_up: bool)
    requires
        min_nat(sqrt_a, sqrt_b) > 0,
    ensures
        ({
            let sa = min_nat(sqrt_a, sqrt_b);
            let sb = max_nat(sqrt_a, sqrt_b);
            let n = liquidity * q96() * ((sb - sa) as nat);
            amount0_value(sqrt_a, sqrt_b, liquidity, round_up) == if round_up {
                div_ceil(n, sa * sb)
            } else {
                n / (sa * sb)
            }
        }),
        amount0_value(sqrt_a, sqrt_b, liquidity, round_up) == amount0_value(sqrt_b, sqrt_a, liquidity, round_up),
{
    let sa = min_nat(sqrt_a, sqrt_b);
    let sb = max_nat(sqrt_a, sqrt_b);
    let n = liquidity * q96() * ((sb - sa) as nat);
    assert(sb > 0);
    if round_up {
        lemma_div_ceil_nested(n, sb, sa);
        assert(sa * sb == sb * sa) by (nonlinear_arith);
    } else {
        vstd::arithmetic::div_mod::lemma_div_denominator(n as int, sb as int, sa as int);
        assert(sb * sa == sa * sb) by (nonlinear_arith);
    }
}

/// Token1 needed to move between two square-root prices:
/// `L * (sb - sa) / 2^96`, rounded the given way.
pub open spec fn amount1_value(sqrt_a: nat, sqrt_b: nat, liquidity: nat, round_up: bool) -> nat {
    let sa = min_nat(sqrt_a, sqrt_b);
    let sb = max_nat(sqrt_a, sqrt_b);
    mul_div_value(liquidity, (sb - sa) as nat, q96(), round_up)
}

/// A number as a `u128` when it fits.
pub open spec fn fit_u128(v: nat) -> Option<u128> {
    if v <= u128::MAX {
        Some(v as u128)
    } else {
        None
    }
}

/// The result of `amount0_delta`.
pub open spec fn amount0_delta_result(sqrt_a: nat, sqrt_b: nat, liquidity: nat, round_up: bool) -> Option<
    u128,
> {
    if liquidity == 0 {
        Some(0u128)
    } else if min_nat(sqrt_a, sqrt_b) == 0 {
        None
    } else {
        fit_u128(amount0_value(sqrt_a, sqrt_b, liquidity, round_up))
    }
}

/// The result of `amount1_delta`, when the unrounded amount fits in 256 bits.
pub open spec fn amount1_delta_result(sqrt_a: nat, sqrt_b: nat, liquidity: nat, round_up: bool) -> Option<
    u128,
> {
    if liquidity == 0 {
        Some(0u128)
    } else {
        fit_u128(amount1_value(sqrt_a, sqrt_b, liquidity, round_up))
    }
}

/// Whether `amount1_delta` stays within 256-bit intermediates.
pub open spec fn amount1_in_range(sqrt_a: nat, sqrt_b: nat, liquidity: nat, round_up: bool) -> bool {
    liquidity == 0 || amount1_value(sqrt_a, sqrt_b, liquidity, round_up) < u256_modulus()
}

pub(crate) fn q96_u256() -> (r: U256)
    ensures
        r@ == q96(),
{
    U256([0, 0x1_0000_0000, 0, 0])
}

/// The two prices in ascending order.
fn order_prices(a: &U256, b: &U256) -> (res: (U256, U256))
    ensures
        res.0@ == min_nat(a@, b@),
        res.1@ == max_nat(a@, b@),
{
    if b.less_than(a) {
        (*b, *a)
    } else {
        (*a, *b)
    }
}

/// Token0 amount between two square-root prices for the given liquidity.
pub fn amount0_delta(sqrt_a: &U256, sqrt_b: &U256, liquidity: u128, round_up: bool) -> (r: Option<
    u128,
>)
    ensures
        r == amount0_delta_result(sqrt_a@, sqrt_b@, liquidity as nat, round_up),
        liquidity != 0 && min_nat(sqrt_a@, sqrt_b@) > 0 ==> r == fit_u128(
            {
                let sa = min_nat(sqrt_a@, sqrt_b@);
                let sb = max_nat(sqrt_a@, sqrt_b@);
                let n = (liquidity as nat) * q96() * ((sb - sa) as nat);
                if round_up {
                    div_ceil(n, sa * sb)
                } else {
                    n / (sa * sb)
                }
            },
        ),
{
    if liquidity == 0 {
        return Some(0);
    }
    let (sa, sb) = order_prices(sqrt_a, sqrt_b);
    if sa.is_zero() {
        return None;
    }
    let diff = sb.wrapping_sub(&sa);
    let liq = U256::from_u128(liquidity);
    let numerator1 = liq.wrapping_mul(&q96_u256());
    let ghost n1 = (liquidity as nat) * q96();
    let ghost df = (sb@ - sa@) as nat;
    proof {
        lemma_small_mod(df, u256_modulus());
        lemma_mul_upper_bound(liquidity as int, u128::MAX as int, q96() as int, q96() as int);
        lemma_small_mod(n1, u256_modulus());
        lemma_mul_inequality(df as int, sb@ as int, n1 as int);
        lemma_mul_is_commutative(df as int, n1 as int);
        lemma_mul_is_commutative(sb@ as int, n1 as int);
        lemma_div_is_ordered((n1 * df) as int, (n1 * sb@) as int, sb@ as int);
        lemma_div_multiples_vanish(n1 as int, sb@ as int);
        assert((n1 * df) / sb@ <= n1);
    }
    let temp = if round_up {
        mul_div_ceil(&numerator1, &diff, &sb)
    } else {
        mul_div_floor(&numerator1, &diff, &sb)
    };
    proof {
        if round_up {
            lemma_small_mod(div_ceil(n1 * df, sb@), u256_modulus());
        }
        assert(temp@ == mul_div_value(n1, df, sb@, round_up));
        assert(temp@ <= n1 + 1);
    }
    let amount = if round_up {
        let r = temp.rem(&sa);
        let q = temp.div(&sa);
        if r.is_zero() {
            q
        } else {
            let one = U256([1, 0, 0, 0]);
            proof {
                lemma_div_is_ordered_by_denominator(temp@ as int, 1, sa@ as int);
                assert(temp@ as int / 1 == temp@);
                lemma_small_mod(q@ + 1, u256_modulus());
            }
            q.wrapping_add(&one)
        }
    } else {
        temp.div(&sa)
    };
    proof {
        lemma_amount0_closed_form(sqrt_a@, sqrt_b@, liquidity as nat, round_up);
    }
    amount.to_u128()
}

/// Token1 amount between two square-root prices for the given liquidity.
pub fn amount1_delta(sqrt_a: &U256, sqrt_b: &U256, liquidity: u128, round_up: bool) -> (r: Option<
    u128,
>)
    ensures
        amount1_in_range(sqrt_a@, sqrt_b@, liquidity as nat, round_up) ==> r == amount1_delta_result(
            sqrt_a@,
            sqrt_b@,
            liquidity as nat,
            round_up,
        ),
        liquidity == 0 ==> r == Some(0u128),
        liquidity != 0 ==> r == fit_u128(
            mul_div_wide(
                liquidity as nat,
                (max_nat(sqrt_a@, sqrt_b@) - min_nat(sqrt_a@, sqrt_b@)) as nat,
                q96(),
                round_up,
            ),
        ),
{
    if liquidity == 0 {
        return Some(0);
    }
    let (sa, sb) = order_prices(sqrt_a, sqrt_b);
    let diff = sb.wrapping_sub(&sa);
    let liq = U256::from_u128(liquidity);
    proof {
        lemma_small_mod((sb@ - sa@) as nat, u256_modulus());
    }
    let amount = if round_up {
        mul_div_ceil(&liq, &diff, &q96_u256())
    } else {
        mul_div_floor(&liq, &diff, &q96_u256())
    };
    proof {
        let n = (liquidity as nat) * ((sb@ - sa@) as nat);
        if round_up && div_ceil(n, q96()) < u256_modulus() {
            lemma_small_mod(div_ceil(n, q96()), u256_modulus());
        }
    }
    amount.to_u128()
}


// ============================================================================
// Next square-root price
// ============================================================================

/// `amount * sqrt_price` modulo 2^256, as the contract computes it.
pub open spec fn wrapped_product(amount: nat, sqrt_price: nat) -> nat {
    (amount * sqrt_price) % u256_modulus()
}

/// Denominator of the token0 price update: `L * 2^96 +/- amount * sqrt`.
pub open spec fn next_price0_denominator(sqrt_price: nat, liquidity: nat, amount: nat, add: bool) -> int {
    let n1 = liquidity * q96();
    let product = wrapped_product(amount, sqrt_price);
    if add {
        ((n1 + product) % u256_modulus()) as int
    } else {
        n1 - product
    }
}

/// The token0 price update cannot fail: its denominator is positive.
pub open spec fn next_price0_allowed(sqrt_price: nat, liquidity: nat, amount: nat, add: bool) -> bool {
    amount == 0 || next_price0_denominator(sqrt_price, liquidity, amount, add) > 0
}

/// The token0 price update stays within 256-bit intermediates.
pub open spec fn next_price0_in_range(sqrt_price: nat, liquidity: nat, amount: nat, add: bool) -> bool {
    amount == 0 || (liquidity * q96() * sqrt_price) / (next_price0_denominator(
        sqrt_price,
        liquidity,
        amount,
        add,
    ) as nat) < u256_modulus()
}

/// New price after adding (or removing) `amount` of token0:
/// `ceil(L * 2^96 * sqrt / denominator)`.
pub open spec fn next_price0_value(sqrt_price: nat, liquidity: nat, amount: nat, add: bool) -> nat {
    if amount == 0 {
        sqrt_price
    } else {
        div_ceil(
            liquidity * q96() * sqrt_price,
            next_price0_denominator(sqrt_price, liquidity, amount, add) as nat,
        ) % u256_modulus()
    }
}

/// The token1 price update cannot fail.
pub open spec fn next_price1_allowed(sqrt_price: nat, liquidity: nat, amount: nat, add: bool) -> bool {
    liquidity != 0 && (!add ==> sqrt_price > div_ceil(amount * q96(), liquidity))
}

/// New price after adding (or removing) `amount` of token1:
/// `sqrt +/- amount * 2^96 / L`, the quotient rounded toward the safe side.
pub open spec fn next_price1_value(sqrt_price: nat, liquidity: nat, amount: nat, add: bool) -> nat {
    if add {
        (sqrt_price + (amount * q96()) / liquidity) % u256_modulus()
    } else {
        (sqrt_price - div_ceil(amount * q96(), liquidity)) as nat
    }
}

/// Next square-root price after moving `amount` of token0 in (`add`) or out.
pub fn get_next_sqrt_price_from_amount0(sqrt_price: &U256, liquidity: u128, amount: u128, add: bool) -> (r:
    U256)
    requires
        next_price0_allowed(sqrt_price@, liquidity as nat, amount as nat, add),
    ensures
        next_price0_in_range(sqrt_price@, liquidity as nat, amount as nat, add) ==> r@
            == next_price0_value(sqrt_price@, liquidity as nat, amount as nat, add),
{
    if amount == 0 {
        return *sqrt_price;
    }
    let liq = U256::from_u128(liquidity);
    let numerator1 = liq.wrapping_mul(&q96_u256());
    let amt = U256::from_u128(amount);
    proof {
        lemma_mul_upper_bound(liquidity as int, u128::MAX as int, q96() as int, q96() as int);
        lemma_small_mod((liquidity as nat) * q96(), u256_modulus());
    }
    if add {
        let product = amt.wrapping_mul(sqrt_price);
        let denominator = numerator1.wrapping_add(&product);
        mul_div_ceil(&numerator1, sqrt_price, &denominator)
    } else {
        let product = amt.wrapping_mul(sqrt_price);
        let denominator = numerator1.wrapping_sub(&product);
        proof {
            lemma_small_mod((numerator1@ - product@) as nat, u256_modulus());
        }
        mul_div_ceil(&numerator1, sqrt_price, &denominator)
    }
}

/// Next square-root price after moving `amount` of token1 in (`add`) or out.
pub fn get_next_sqrt_price_from_amount1(sqrt_price: &U256, liquidity: u128, amount: u128, add: bool) -> (r:
    U256)
    requires
        next_price1_allowed(sqrt_price@, liquidity as nat, amount as nat, add),
    ensures
        r@ == next_price1_value(sqrt_price@, liquidity as nat, amount as nat, add),
{
    let liq = U256::from_u128(liquidity);
    let amt = U256::from_u128(amount);
    let ghost n = (amount as nat) * q96();
    proof {
        lemma_mul_upper_bound(amount as int, u128::MAX as int, q96() as int, q96() as int);
        lemma_div_is_ordered_by_denominator(n as int, 1, liquidity as int);
        assert(n as int / 1 == n);
    }
    if add {
        let quotient = mul_div_floor(&amt, &q96_u256(), &liq);
        sqrt_price.wrapping_add(&quotient)
    } else {
        let quotient = mul_div_ceil(&amt, &q96_u256(), &liq);
        proof {
            if n % (liquidity as nat) != 0 {
                lemma_fundamental_div_mod(n as int, liquidity as int);
                lemma_mod_pos_bound(n as int, liquidity as int);
            }
            assert(div_ceil(n, liquidity as nat) <= n + 1);
            lemma_small_mod(div_ceil(n, liquidity as nat), u256_modulus());
        }
        let r = sqrt_price.wrapping_sub(&quotient);
        proof {
            lemma_small_mod((sqrt_price@ - quotient@) as nat, u256_modulus());
        }
        r
    }
}

/// Next square-root price after `amount_in` enters the pool.
pub fn get_next_sqrt_price_from_input(sqrt_price: &U256, liquidity: u128, amount_in: u128, zero_for_one: bool) -> (r: U256)
    requires
        zero_for_one ==> next_price0_allowed(sqrt_price@, liquidity as nat, amount_in as nat, true),
        !zero_for_one ==> next_price1_allowed(sqrt_price@, liquidity as nat, amount_in as nat, true),
    ensures
        zero_for_one && next_price0_in_range(sqrt_price@, liquidity as nat, amount_in as nat, true)
            ==> r@ == next_price0_value(sqrt_price@, liquidity as nat, amount_in as nat, true),
        !zero_for_one ==> r@ == next_price1_value(sqrt_price@, liquidity as nat, amount_in as nat, true),
{
    if zero_for_one {
        get_next_sqrt_price_from_amount0(sqrt_price, liquidity, amount_in, true)
    } else {
        get_next_sqrt_price_from_amount1(sqrt_price, liquidity, amount_in, true)
    }
}

/// Next square-root price after `amount_out` leaves the pool.
pub fn get_next_sqrt_price_from_output(sqrt_price: &U256, liquidity: u128, amount_out: u128, zero_for_one: bool) -> (r: U256)
    requires
        zero_for_one ==> next_price1_allowed(sqrt_price@, liquidity as nat, amount_out as nat, false),
        !zero_for_one ==> next_price0_allowed(sqrt_price@, liquidity as nat, amount_out as nat, false),
    ensures
        zero_for_one ==> r@ == next_price1_value(sqrt_price@, liquidity as nat, amount_out as nat, false),
        !zero_for_one && next_price0_in_range(sqrt_price@, liquidity as nat, amount_out as nat, false)
            ==> r@ == next_price0_value(sqrt_price@, liquidity as nat, amount_out as nat, false),
{
    if zero_for_one {
        get_next_sqrt_price_from_amount1(sqrt_price, liquidity, amount_out, false)
    } else {
        get_next_sqrt_price_from_amount0(sqrt_price, liquidity, amount_out, false)
    }
}

// ============================================================================
// Swap step
// ============================================================================

/// Result of a single swap step within one tick range.
#[derive(Debug, Clone, Copy)]
pub struct SwapStep {
    pub sqrt_next: U256,
    pub amount_in: u128,
    pub amount_out: u128,
    pub fee_amount: u128,
}

pub open spec fn unwrap_or_u128(o: Option<u128>, default: u128) -> u128 {
    match o {
        Some(v) => v,
        None => default,
    }
}

/// Whether an optional amount is present and at most `budget`.
pub open spec fn covers(o: Option<u128>, budget: u128) -> bool {
    match o {
        Some(a) => budget >= a,
        None => false,
    }
}

/// Keep a computed price from passing the target in the swap direction.
pub open spec fn clamp_to_target(computed: nat, target: nat, zero_for_one: bool) -> nat {
    if zero_for_one {
        if computed < target {
            target
        } else {
            computed
        }
    } else {
        if computed > target {
            target
        } else {
            computed
        }
    }
}

/// Input amount needed to move the price from `current` to `next`.
pub open spec fn step_amount_in(current: nat, next: nat, liquidity: nat, zero_for_one: bool) -> Option<u128> {
    if zero_for_one {
        amount0_delta_result(next, current, liquidity, true)
    } else {
        amount1_delta_result(current, next, liquidity, true)
    }
}

/// Output amount released by moving the price from `current` to `next`.
pub open spec fn step_amount_out(current: nat, next: nat, liquidity: nat, zero_for_one: bool) -> Option<u128> {
    if zero_for_one {
        amount1_delta_result(next, current, liquidity, false)
    } else {
        amount0_delta_result(current, next, liquidity, false)
    }
}

/// The token1 amounts of a step are computed within 256 bits.
pub open spec fn step_amounts_in_range(current: nat, next: nat, liquidity: nat, zero_for_one: bool) -> bool {
    if zero_for_one {
        amount1_in_range(next, current, liquidity, false)
    } else {
        amount1_in_range(current, next, liquidity, true)
    }
}

/// Input left after taking the fee off the top.
pub open spec fn less_fee(amount_remaining: u128, fee_pips: u32) -> u128 {
    mul_div_u128_value(amount_remaining, (10_000 - fee_pips) as u128, 10_000, false)
}

/// Exact input: the amount needed to reach the target.
pub open spec fn in_to_target(current: nat, target: nat, liquidity: nat, zero_for_one: bool) -> Option<u128> {
    step_amount_in(current, target, liquidity, zero_for_one)
}

/// Exact output: the amount released on reaching the target.
pub open spec fn out_to_target(current: nat, target: nat, liquidity: nat, zero_for_one: bool) -> Option<u128> {
    step_amount_out(current, target, liquidity, zero_for_one)
}

/// Price reached by an exact-input step.
pub open spec fn exact_in_next(current: nat, target: nat, liquidity: nat, amount_remaining: u128, fee_pips: u32, zero_for_one: bool) -> nat {
    let budget = less_fee(amount_remaining, fee_pips);
    if covers(in_to_target(current, target, liquidity, zero_for_one), budget) {
        target
    } else if zero_for_one {
        clamp_to_target(next_price0_value(current, liquidity, budget as nat, true), target, true)
    } else {
        clamp_to_target(next_price1_value(current, liquidity, budget as nat, true), target, false)
    }
}

/// Price reached by an exact-output step.
pub open spec fn exact_out_next(current: nat, target: nat, liquidity: nat, amount_remaining: u128, zero_for_one: bool) -> nat {
    if covers(out_to_target(current, target, liquidity, zero_for_one), amount_remaining) {
        target
    } else if zero_for_one {
        clamp_to_target(next_price1_value(current, liquidity, amount_remaining as nat, false), target, true)
    } else {
        clamp_to_target(next_price0_value(current, liquidity, amount_remaining as nat, false), target, false)
    }
}

/// The step can be computed without an arithmetic failure.
pub open spec fn swap_step_allowed(current: nat, target: nat, liquidity: nat, amount_remaining: u128, fee_pips: u32, zero_for_one: bool, exact_input: bool) -> bool {
    liquidity != 0 ==> {
        &&& fee_pips <= 10_000
        &&& (exact_input && zero_for_one && !covers(
            in_to_target(current, target, liquidity, true),
            less_fee(amount_remaining, fee_pips),
        )) ==> next_price0_allowed(current, liquidity, less_fee(amount_remaining, fee_pips) as nat, true)
        &&& (!exact_input && zero_for_one && (!amount1_in_range(target, current, liquidity, false)
            || !covers(out_to_target(current, target, liquidity, true), amount_remaining)))
            ==> next_price1_allowed(current, liquidity, amount_remaining as nat, false)
        &&& (!exact_input && !zero_for_one && !covers(
            out_to_target(current, target, liquidity, false),
            amount_remaining,
        )) ==> next_price0_allowed(current, liquidity, amount_remaining as nat, false)
    }
}

/// Every intermediate of the step fits in 256 bits, so its result is the
/// exact one below.
pub open spec fn swap_step_in_range(current: nat, target: nat, liquidity: nat, amount_remaining: u128, fee_pips: u32, zero_for_one: bool, exact_input: bool) -> bool {
    let next = if exact_input {
        exact_in_next(current, target, liquidity, amount_remaining, fee_pips, zero_for_one)
    } else {
        exact_out_next(current, target, liquidity, amount_remaining, zero_for_one)
    };
    liquidity != 0 ==> {
        &&& step_amounts_in_range(current, next, liquidity, zero_for_one)
        &&& exact_input ==> {
            &&& !zero_for_one ==> amount1_in_range(current, target, liquidity, true)
            &&& zero_for_one && !covers(
                in_to_target(current, target, liquidity, true),
                less_fee(amount_remaining, fee_pips),
            ) ==> next_price0_in_range(current, liquidity, less_fee(amount_remaining, fee_pips) as nat, true)
        }
        &&& !exact_input ==> {
            &&& zero_for_one ==> amount1_in_range(target, current, liquidity, false)
            &&& !zero_for_one && !covers(out_to_target(current, target, liquidity, false), amount_remaining)
                ==> next_price0_in_range(current, liquidity, amount_remaining as nat, false)
        }
    }
}

/// What a swap step gives: with no liquidity, the target and nothing else;
/// otherwise a price that does not pass the target, the fee of the input,
/// and, where every intermediate fits in 256 bits, the exact price and
/// amounts of the step.
pub open spec fn swap_step_result(
    current: U256,
    target: U256,
    liquidity: u128,
    amount_remaining: u128,
    fee_pips: u32,
    zero_for_one: bool,
    exact_input: bool,
    step: SwapStep,
) -> bool {
    &&& liquidity == 0 ==> step.sqrt_next == target && step.amount_in == 0 && step.amount_out == 0
        && step.fee_amount == 0
    &&& zero_for_one ==> step.sqrt_next@ >= target@
    &&& !zero_for_one ==> step.sqrt_next@ <= target@
    &&& liquidity != 0 && !exact_input ==> step.amount_out <= amount_remaining
    &&& liquidity != 0 && exact_input && step.sqrt_next@ != target@ ==> step.fee_amount
        == (if amount_remaining >= step.amount_in { (amount_remaining - step.amount_in) as u128 } else { 0u128 })
    &&& liquidity != 0 && (!exact_input || step.sqrt_next@ == target@) ==> step.fee_amount
        == mul_div_u128_value(step.amount_in, fee_pips as u128, (10_000 - fee_pips) as u128, true)
    &&& swap_step_in_range(current@, target@, liquidity as nat, amount_remaining, fee_pips, zero_for_one, exact_input)
        && liquidity != 0 ==> {
        let next = if exact_input {
            exact_in_next(current@, target@, liquidity as nat, amount_remaining, fee_pips, zero_for_one)
        } else {
            exact_out_next(current@, target@, liquidity as nat, amount_remaining, zero_for_one)
        };
        let out = unwrap_or_u128(step_amount_out(current@, next, liquidity as nat, zero_for_one), 0);
        &&& step.sqrt_next@ == next
        &&& step.amount_in == unwrap_or_u128(step_amount_in(current@, next, liquidity as nat, zero_for_one), u128::MAX)
        &&& step.amount_out == (if !exact_input && out > amount_remaining { amount_remaining } else { out })
    }
}

/// Compute a single swap step within one tick range: how far the price
/// moves toward `sqrt_target`, and the input, output and fee amounts.
pub fn compute_swap_step(
    sqrt_current: &U256,
    sqrt_target: &U256,
    liquidity: u128,
    amount_remaining: u128,
    fee_pips: u32,
    zero_for_one: bool,
    exact_input: bool,
) -> (step: SwapStep)
    requires
        swap_step_allowed(sqrt_current@, sqrt_target@, liquidity as nat, amount_remaining, fee_pips, zero_for_one, exact_input),
    ensures
        swap_step_result(*sqrt_current, *sqrt_target, liquidity, amount_remaining, fee_pips, zero_for_one, exact_input, step),
{
    if liquidity == 0 {
        return SwapStep { sqrt_next: *sqrt_target, amount_in: 0, amount_out: 0, fee_amount: 0 };
    }
    let fee = fee_pips as u128;
    let fee_complement = FEE_DENOMINATOR - fee;
    if exact_input {
        let amount_remaining_less_fee = mul_div_u128(amount_remaining, fee_complement, FEE_DENOMINATOR, false);
        let amount_in_to_target = if zero_for_one {
            amount0_delta(sqrt_target, sqrt_current, liquidity, true)
        } else {
            amount1_delta(sqrt_current, sqrt_target, liquidity, true)
        };
        let reached = match amount_in_to_target {
            Some(a) => amount_remaining_less_fee >= a,
            None => false,
        };
        let sqrt_next = if reached {
            *sqrt_target
        } else {
            let computed = get_next_sqrt_price_from_input(
                sqrt_current,
                liquidity,
                amount_remaining_less_fee,
                zero_for_one,
            );
            if zero_for_one {
                if computed.less_than(sqrt_target) {
                    *sqrt_target
                } else {
                    computed
                }
            } else {
                if sqrt_target.less_than(&computed) {
                    *sqrt_target
                } else {
                    computed
                }
            }
        };
        let max_reached = sqrt_next.equals(sqrt_target);
        let amount_in = if zero_for_one {
            match amount0_delta(&sqrt_next, sqrt_current, liquidity, true) {
                Some(v) => v,
                None => u128::MAX,
            }
        } else {
            match amount1_delta(sqrt_current, &sqrt_next, liquidity, true) {
                Some(v) => v,
                None => u128::MAX,
            }
        };
        let amount_out = if zero_for_one {
            match amount1_delta(&sqrt_next, sqrt_current, liquidity, false) {
                Some(v) => v,
                None => 0,
            }
        } else {
            match amount0_delta(sqrt_current, &sqrt_next, liquidity, false) {
                Some(v) => v,
                None => 0,
            }
        };
        let fee_amount = if max_reached {
            mul_div_u128(amount_in, fee, fee_complement, true)
        } else {
            if amount_remaining >= amount_in {
                amount_remaining - amount_in
            } else {
                0
            }
        };
        SwapStep { sqrt_next, amount_in, amount_out, fee_amount }
    } else {
        let amount_out_to_target = if zero_for_one {
            amount1_delta(sqrt_target, sqrt_current, liquidity, false)
        } else {
            amount0_delta(sqrt_current, sqrt_target, liquidity, false)
        };
        let reached = match amount_out_to_target {
            Some(a) => amount_remaining >= a,
            None => false,
        };
        let sqrt_next = if reached {
            *sqrt_target
        } else {
            let computed = get_next_sqrt_price_from_output(
                sqrt_current,
                liquidity,
                amount_remaining,
                zero_for_one,
            );
            if zero_for_one {
                if computed.less_than(sqrt_target) {
                    *sqrt_target
                } else {
                    computed
                }
            } else {
                if sqrt_target.less_than(&computed) {
                    *sqrt_target
                } else {
                    computed
                }
            }
        };
        let amount_in = if zero_for_one {
            match amount0_delta(&sqrt_next, sqrt_current, liquidity, true) {
                Some(v) => v,
                None => u128::MAX,
            }
        } else {
            match amount1_delta(sqrt_current, &sqrt_next, liquidity, true) {
                Some(v) => v,
                None => u128::MAX,
            }
        };
        let mut amount_out = if zero_for_one {
            match amount1_delta(&sqrt_next, sqrt_current, liquidity, false) {
                Some(v) => v,
                None => 0,
            }
        } else {
            match amount0_delta(sqrt_current, &sqrt_next, liquidity, false) {
                Some(v) => v,
                None => 0,
            }
        };
        if amount_out > amount_remaining {
            amount_out = amount_remaining;
        }
        let fee_amount = mul_div_u128(amount_in, fee, fee_complement, true);
        SwapStep { sqrt_next, amount_in, amount_out, fee_amount }
    }
}
/// A rounded-up quotient stays at or below `b` when the dividend does.
proof fn lemma_ceil_at_most(x: nat, d: nat, b: nat)
    requires
        d > 0,
        x <= b * d,
    ensures
        div_ceil(x, d) <= b,
{
    lemma_div_ceil_bounds(x, d);
    let c = div_ceil(x, d);
    assert(c <= b) by (nonlinear_arith)
        requires
            d > 0,
            x <= b * d,
            c * d < x + d,
    ;
}

/// A rounded-up quotient above `b` means the dividend is above `b * d`.
proof fn lemma_ceil_above(x: nat, d: nat, b: nat)
    requires
        d > 0,
        div_ceil(x, d) > b,
    ensures
        x > b * d,
{
    lemma_div_ceil_bounds(x, d);
    let c = div_ceil(x, d);
    assert(x > b * d) by (nonlinear_arith)
        requires
            d > 0,
            c > b,
            c * d < x + d,
    ;
}

/// An input within the remainder less the fee, plus its fee, stays within
/// the remainder.
proof fn lemma_input_and_fee_within(amount_in: u128, remaining: u128, fee_pips: u32)
    requires
        fee_pips < 10_000,
        amount_in <= less_fee(remaining, fee_pips),
    ensures
        amount_in + mul_div_u128_value(amount_in, fee_pips as u128, (10_000 - fee_pips) as u128, true) <= remaining,
{
    let c: nat = (10_000 - fee_pips) as nat;
    let f: nat = fee_pips as nat;
    let rem: nat = remaining as nat;
    let ai: nat = amount_in as nat;
    if remaining == 0 {
        assert(less_fee(remaining, fee_pips) == 0);
    } else {
        let q = (rem * c) / 10_000;
        vstd::arithmetic::div_mod::lemma_fundamental_div_mod((rem * c) as int, 10_000);
        assert(q <= rem) by (nonlinear_arith)
            requires
                c <= 10_000,
                q == (rem * c) / 10_000,
                rem * c == 10_000 * q + (rem * c) % 10_000,
                (rem * c) % 10_000 >= 0,
        ;
        assert(less_fee(remaining, fee_pips) == q);
        assert(ai * 10_000 <= rem * c) by (nonlinear_arith)
            requires
                ai <= q,
                rem * c == 10_000 * q + (rem * c) % 10_000,
                (rem * c) % 10_000 >= 0,
        ;
        if amount_in != 0 && fee_pips != 0 {
            assert(ai * f <= ((rem - ai) as nat) * c) by (nonlinear_arith)
                requires
                    ai * 10_000 <= rem * c,
                    c + f == 10_000,
                    ai <= rem,
            ;
            lemma_ceil_at_most(ai * f, c, (rem - ai) as nat);
            assert(div_ceil(ai * f, c) <= rem - ai);
        }
    }
}

/// A token1-in step that does not reach its target stops below it, and the
/// input it uses is within the budget.
proof fn lemma_one_for_zero_short_step(cur: nat, target: nat, liquidity: nat, budget: u128)
    requires
        liquidity > 0,
        cur <= target,
        cur + ((budget as nat) * q96()) / liquidity < u256_modulus(),
        !covers(amount1_delta_result(cur, target, liquidity, true), budget),
    ensures
        ({
            let next = clamp_to_target(next_price1_value(cur, liquidity, budget as nat, true), target, false);
            &&& next == cur + ((budget as nat) * q96()) / liquidity
            &&& cur <= next < target
            &&& amount1_delta_result(cur, next, liquidity, true) matches Some(a) && a <= budget
        }),
{
    let q = q96();
    let step = ((budget as nat) * q) / liquidity;
    vstd::arithmetic::div_mod::lemma_fundamental_div_mod(((budget as nat) * q) as int, liquidity as int);
    vstd::arithmetic::div_mod::lemma_small_mod(cur + step, u256_modulus());
    assert(next_price1_value(cur, liquidity, budget as nat, true) == cur + step);
    // The amount to the target is above the budget.
    let to_target = amount1_value(cur, target, liquidity, true);
    assert(to_target == div_ceil(liquidity * ((target - cur) as nat), q));
    assert(to_target > budget);
    lemma_ceil_above(liquidity * ((target - cur) as nat), q, budget as nat);
    assert(step * liquidity <= (budget as nat) * q) by (nonlinear_arith)
        requires
            (budget as nat) * q == liquidity * step + ((budget as nat) * q) % liquidity,
            ((budget as nat) * q) % liquidity >= 0,
    ;
    assert(step < target - cur) by (nonlinear_arith)
        requires
            step * liquidity <= (budget as nat) * q,
            liquidity * (target - cur) > (budget as nat) * q,
            liquidity > 0,
    ;
    let next = cur + step;
    assert(amount1_value(cur, next, liquidity, true) == div_ceil(liquidity * step, q));
    assert(liquidity * step <= (budget as nat) * q) by (nonlinear_arith)
        requires
            step * liquidity <= (budget as nat) * q,
    ;
    lemma_ceil_at_most(liquidity * step, q, budget as nat);
}

/// A token0-in step that does not reach its target stops above it (and not
/// above the current price), and the input it uses is within the budget.
proof fn lemma_zero_for_one_short_step(cur: nat, target: nat, liquidity: nat, budget: u128)
    requires
        liquidity > 0,
        0 < target <= cur,
        cur < u256_modulus(),
        liquidity * q96() + (budget as nat) * cur < u256_modulus(),
        !covers(amount0_delta_result(target, cur, liquidity, true), budget),
    ensures
        ({
            let next = clamp_to_target(next_price0_value(cur, liquidity, budget as nat, true), target, true);
            &&& target < next <= cur
            &&& amount0_delta_result(next, cur, liquidity, true) matches Some(a) && a <= budget
        }),
{
    let q = q96();
    let n1 = liquidity * q;
    lemma_amount0_closed_form(target, cur, liquidity, true);
    let to_target = amount0_value(target, cur, liquidity, true);
    assert(to_target > budget);
    assert(target * cur > 0) by (nonlinear_arith)
        requires
            target > 0,
            cur > 0,
    ;
    lemma_ceil_above(n1 * ((cur - target) as nat), target * cur, budget as nat);
    if budget == 0 {
        assert(next_price0_value(cur, liquidity, 0, true) == cur);
        assert(n1 * ((cur - target) as nat) > 0);
        if cur == target {
            assert(n1 * ((cur - target) as nat) == 0) by (nonlinear_arith)
                requires
                    cur == target,
            ;
        }
        assert(cur > target);
        lemma_amount0_closed_form(cur, cur, liquidity, true);
        assert(cur * cur > 0) by (nonlinear_arith)
            requires
                cur > 0,
        ;
        assert(n1 * ((cur - cur) as nat) == 0) by (nonlinear_arith);
        lemma_ceil_at_most(0, cur * cur, 0);
    } else {
        let d = n1 + (budget as nat) * cur;
        vstd::arithmetic::div_mod::lemma_small_mod((budget as nat) * cur, u256_modulus());
        vstd::arithmetic::div_mod::lemma_small_mod(n1 + (budget as nat) * cur, u256_modulus());
        assert(wrapped_product(budget as nat, cur) == (budget as nat) * cur);
        assert(next_price0_denominator(cur, liquidity, budget as nat, true) == d);
        assert(n1 > 0) by (nonlinear_arith)
            requires
                liquidity > 0,
                n1 == liquidity * q,
                q > 0,
        ;
        let x = n1 * cur;
        let c = div_ceil(x, d);
        lemma_div_ceil_bounds(x, d);
        assert(x <= cur * d) by (nonlinear_arith)
            requires
                d == n1 + (budget as nat) * cur,
                x == n1 * cur,
        ;
        lemma_ceil_at_most(x, d, cur);
        vstd::arithmetic::div_mod::lemma_small_mod(c, u256_modulus());
        assert(next_price0_value(cur, liquidity, budget as nat, true) == c);
        // Above the target.
        assert(c > target) by (nonlinear_arith)
            requires
                n1 * (cur - target) > (budget as nat) * (target * cur),
                d == n1 + (budget as nat) * cur,
                x == n1 * cur,
                x <= c * d,
                d > 0,
        ;
        // Within the budget.
        lemma_amount0_closed_form(c, cur, liquidity, true);
        assert(c * cur > 0) by (nonlinear_arith)
            requires
                c > 0,
                cur > 0,
        ;
        assert(n1 * ((cur - c) as nat) <= (budget as nat) * (c * cur)) by (nonlinear_arith)
            requires
                x <= c * d,
                d == n1 + (budget as nat) * cur,
                x == n1 * cur,
                c <= cur,
        ;
        lemma_ceil_at_most(n1 * ((cur - c) as nat), c * cur, budget as nat);
    }
}

/// The remainder less the fee is at most the remainder.
proof fn lemma_less_fee_at_most(remaining: u128, fee_pips: u32)
    requires
        fee_pips <= 10_000,
    ensures
        less_fee(remaining, fee_pips) <= remaining,
{
    let c: nat = (10_000 - fee_pips) as nat;
    let rem: nat = remaining as nat;
    if remaining != 0 && c != 0 {
        let q = (rem * c) / 10_000;
        vstd::arithmetic::div_mod::lemma_fundamental_div_mod((rem * c) as int, 10_000);
        assert(q <= rem) by (nonlinear_arith)
            requires
                c <= 10_000,
                rem * c == 10_000 * q + (rem * c) % 10_000,
                (rem * c) % 10_000 >= 0,
        ;
    }
}

/// An exact-input swap step (with liquidity, a fee below 100%, and every
/// intermediate within 256 bits) moves the price from the current one
/// toward the target without passing it, and takes at most the remaining
/// input, counting its fee; a step that stops short of the target takes
/// all of it, the unused rest charged as fee.
pub proof fn lemma_exact_input_step_range(
    current: U256,
    target: U256,
    liquidity: u128,
    amount_remaining: u128,
    fee_pips: u32,
    zero_for_one: bool,
    step: SwapStep,
)
    requires
        swap_step_result(current, target, liquidity, amount_remaining, fee_pips, zero_for_one, true, step),
        swap_step_in_range(current@, target@, liquidity as nat, amount_remaining, fee_pips, zero_for_one, true),
        liquidity > 0,
        fee_pips < 10_000,
        zero_for_one ==> 0 < target@ <= current@ && liquidity * q96() + less_fee(amount_remaining, fee_pips)
            * current@ < u256_modulus(),
        !zero_for_one ==> current@ <= target@ && current@ + ((less_fee(amount_remaining, fee_pips) as nat) * q96())
            / (liquidity as nat) < u256_modulus(),
    ensures
        zero_for_one ==> target@ <= step.sqrt_next@ <= current@,
        !zero_for_one ==> current@ <= step.sqrt_next@ <= target@,
        step.amount_in + step.fee_amount <= amount_remaining,
        step.sqrt_next@ != target@ ==> step.amount_in + step.fee_amount == amount_remaining,
{
    let b = less_fee(amount_remaining, fee_pips);
    let cur = current@;
    let tgt = target@;
    let l = liquidity as nat;
    lemma_less_fee_at_most(amount_remaining, fee_pips);
    if covers(in_to_target(cur, tgt, l, zero_for_one), b) {
        assert(step.sqrt_next@ == tgt);
        lemma_input_and_fee_within(step.amount_in, amount_remaining, fee_pips);
    } else if zero_for_one {
        assert(cur < u256_modulus()) by {
            crate::u256::lemma_value_bound(current.0);
        }
        lemma_zero_for_one_short_step(cur, tgt, l, b);
    } else {
        lemma_one_for_zero_short_step(cur, tgt, l, b);
    }
}


/// The token0 price update, rounded up, stays below 2^256.
pub open spec fn next_price0_fits(sqrt_price: nat, liquidity: nat, amount: nat, add: bool) -> bool {
    amount == 0 || div_ceil(
        liquidity * q96() * sqrt_price,
        next_price0_denominator(sqrt_price, liquidity, amount, add) as nat,
    ) < u256_modulus()
}

/// Taking token0 out never lowers the price.
proof fn lemma_price0_out_not_below(cur: nat, liquidity: nat, amount: nat)
    requires
        next_price0_allowed(cur, liquidity, amount, false),
        next_price0_fits(cur, liquidity, amount, false),
    ensures
        cur <= next_price0_value(cur, liquidity, amount, false),
{
    if amount != 0 {
        let n1 = liquidity * q96();
        let d = next_price0_denominator(cur, liquidity, amount, false);
        assert(d <= n1);
        let x = n1 * cur;
        let dn = d as nat;
        lemma_div_ceil_bounds(x, dn);
        let c = div_ceil(x, dn);
        assert(cur <= c) by (nonlinear_arith)
            requires
                0 < dn <= n1,
                x == n1 * cur,
                x <= c * dn,
        ;
        vstd::arithmetic::div_mod::lemma_small_mod(c, u256_modulus());
    }
}

/// An exact-output swap step (with liquidity, the target on the side the
/// swap moves toward, and every intermediate within 256 bits) moves the
/// price from the current one toward the target without passing it, and
/// gives out at most the amount asked for.
pub proof fn lemma_exact_output_step_range(
    current: U256,
    target: U256,
    liquidity: u128,
    amount_remaining: u128,
    fee_pips: u32,
    zero_for_one: bool,
    step: SwapStep,
)
    requires
        swap_step_allowed(current@, target@, liquidity as nat, amount_remaining, fee_pips, zero_for_one, false),
        swap_step_result(current, target, liquidity, amount_remaining, fee_pips, zero_for_one, false, step),
        swap_step_in_range(current@, target@, liquidity as nat, amount_remaining, fee_pips, zero_for_one, false),
        liquidity > 0,
        zero_for_one ==> target@ <= current@,
        !zero_for_one ==> current@ <= target@ && next_price0_fits(current@, liquidity as nat, amount_remaining as nat, false),
    ensures
        zero_for_one ==> target@ <= step.sqrt_next@ <= current@,
        !zero_for_one ==> current@ <= step.sqrt_next@ <= target@,
        step.amount_out <= amount_remaining,
{
    let cur = current@;
    let tgt = target@;
    let l = liquidity as nat;
    if !covers(out_to_target(cur, tgt, l, zero_for_one), amount_remaining) && !zero_for_one {
        lemma_price0_out_not_below(cur, l, amount_remaining as nat);
    }
}

} // verus!
