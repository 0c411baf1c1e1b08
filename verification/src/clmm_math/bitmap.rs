//! Tick compression and the two-level chunk bitmaps used to find initialized
//! ticks.

use crate::clmm_math::{MAX_TICK, MIN_TICK, TICKS_PER_CHUNK};
use vstd::prelude::*;

verus! {

pub open spec fn abs_int(x: int) -> int {
    if x < 0 {
        -x
    } else {
        x
    }
}

/// Rust's `/` on integers: the quotient rounded toward zero (written with
/// the Euclidean spec division, which agrees with it for `a >= 0`).
pub open spec fn trunc_div(a: int, b: int) -> int {
    if a >= 0 {
        a / b
    } else {
        -((-a) / b)
    }
}

/// The compressed index of `tick`: `tick / spacing` rounded toward zero,
/// then one lower for a negative tick that `spacing` does not divide (the
/// floor, for a positive spacing).
pub open spec fn compress_tick_value(tick: int, spacing: int) -> int {
    let q = trunc_div(tick, spacing);
    q - (if tick < 0 && q * spacing != tick {
        1int
    } else {
        0int
    })
}

/// With a positive spacing the compressed index times the spacing is at
/// or below the tick, and one more is above it.
pub proof fn lemma_compress_bounds(tick: int, spacing: int)
    requires
        spacing > 0,
    ensures
        compress_tick_value(tick, spacing) * spacing <= tick,
        tick < (compress_tick_value(tick, spacing) + 1) * spacing,
{
    lemma_compress_floor(tick, spacing);
    vstd::arithmetic::div_mod::lemma_fundamental_div_mod(tick, spacing);
    vstd::arithmetic::div_mod::lemma_mod_bound(tick, spacing);
    let c = tick / spacing;
    assert(c * spacing <= tick < (c + 1) * spacing) by (nonlinear_arith)
        requires
            tick == spacing * c + tick % spacing,
            0 <= tick % spacing < spacing,
    ;
}

/// A multiple of a positive spacing compresses to its multiplier.
pub proof fn lemma_compress_multiple(c: int, spacing: int)
    requires
        spacing > 0,
    ensures
        compress_tick_value(c * spacing, spacing) == c,
{
    lemma_compress_floor(c * spacing, spacing);
    vstd::arithmetic::div_mod::lemma_div_multiples_vanish(c, spacing);
    vstd::arithmetic::mul::lemma_mul_is_commutative(c, spacing);
}

pub(crate) fn trunc_div_i32(a: i32, b: i32) -> (q: i32)
    requires
        b != 0,
        !(a == i32::MIN && b == -1),
    ensures
        q == trunc_div(a as int, b as int),
{
    proof {
        let x = a as int;
        let y = b as int;
        if x >= 0 {
            if y > 0 {
                vstd::arithmetic::div_mod::lemma_div_is_ordered_by_denominator(x, 1, y);
                vstd::arithmetic::div_mod::lemma_div_pos_is_pos(x, y);
                assert(x / 1 == x);
            } else {
                assert(-x <= x / y <= 0) by (nonlinear_arith)
                    requires
                        x >= 0,
                        y < 0,
                ;
            }
        } else {
            if y > 0 {
                vstd::arithmetic::div_mod::lemma_div_is_ordered_by_denominator(-x, 1, y);
                vstd::arithmetic::div_mod::lemma_div_pos_is_pos(-x, y);
                assert((-x) / 1 == -x);
            } else if y == -1 {
                assert((-x) / y == x) by (nonlinear_arith)
                    requires
                        y == -1,
                ;
            } else {
                assert(x / 2 <= (-x) / y <= 0) by (nonlinear_arith)
                    requires
                        x < 0,
                        y <= -2,
                ;
            }
        }
    }
    a / b
}

/// For a positive divisor, the compressed index is the floor.
pub proof fn lemma_compress_floor(t: int, s: int)
    requires
        s > 0,
    ensures
        compress_tick_value(t, s) == t / s,
{
    let q = trunc_div(t, s);
    if t >= 0 {
        if q * s != t {
        }
    } else {
        let a = -t;
        vstd::arithmetic::div_mod::lemma_fundamental_div_mod(a, s);
        vstd::arithmetic::div_mod::lemma_mod_pos_bound(a, s);
        let qa = a / s;
        let ra = a % s;
        assert(q == -qa);
        if ra == 0 {
            assert(t == s * q) by (nonlinear_arith)
                requires
                    a == s * qa,
                    q == -qa,
                    t == -a,
            ;
            vstd::arithmetic::div_mod::lemma_fundamental_div_mod_converse_div(t, s, q, 0);
            vstd::arithmetic::mul::lemma_mul_is_commutative(q, s);
        } else {
            assert(t == s * (q - 1) + (s - ra)) by (nonlinear_arith)
                requires
                    a == s * qa + ra,
                    q == -qa,
                    t == -a,
            ;
            vstd::arithmetic::div_mod::lemma_fundamental_div_mod_converse_div(t, s, q - 1, s - ra);
            assert(q * s != t) by (nonlinear_arith)
                requires
                    t == s * (q - 1) + (s - ra),
                    0 < ra < s,
            ;
        }
    }
}

/// A negative tick that the spacing does not divide has a truncated quotient
/// above `i32::MIN`.
pub(crate) proof fn lemma_quotient_above_min(t: int, s: int)
    requires
        i32::MIN <= t < 0,
        s != 0,
        trunc_div(t, s) * s != t,
    ensures
        trunc_div(t, s) > i32::MIN,
{
    let x = -t;
    if s > 0 {
        if s == 1 {
            assert(x / 1 == x);
        } else {
            vstd::arithmetic::div_mod::lemma_div_is_ordered_by_denominator(x, 2, s);
        }
    } else {
        assert(x / s <= 0) by (nonlinear_arith)
            requires
                x > 0,
                s < 0,
        ;
    }
}

/// Compress a tick by dividing by spacing (floor division for a positive
/// spacing).
pub fn compress_tick(tick: i32, spacing: i32) -> (r: i32)
    requires
        spacing != 0,
        !(tick == i32::MIN && spacing == -1),
    ensures
        r == compress_tick_value(tick as int, spacing as int),
        spacing > 0 ==> r == (tick as int) / (spacing as int),
{
    let q = trunc_div_i32(tick, spacing);
    proof {
        vstd::arithmetic::mul::lemma_mul_upper_bound(
            abs_int(q as int),
            0x8000_0000,
            abs_int(spacing as int),
            0x8000_0000,
        );
        assert(abs_int(q as int * spacing as int) == abs_int(q as int) * abs_int(spacing as int)) by (nonlinear_arith);
        if spacing > 0 {
            lemma_compress_floor(tick as int, spacing as int);
        }
        if tick < 0 && (q as int) * (spacing as int) != tick as int {
            lemma_quotient_above_min(tick as int, spacing as int);
        }
    }
    let divides = q as i64 * spacing as i64 == tick as i64;
    let mut compressed = q;
    if tick < 0 && !divides {
        compressed = compressed - 1;
    }
    compressed
}

/// Convert a compressed tick back to a tick, clamped to the valid range.
pub fn compressed_to_tick(compressed: i32, spacing: i32) -> (r: i32)
    ensures
        r == (if compressed * spacing < MIN_TICK {
            MIN_TICK as int
        } else if compressed * spacing > MAX_TICK {
            MAX_TICK as int
        } else {
            compressed * spacing
        }),
{
    proof {
        vstd::arithmetic::mul::lemma_mul_upper_bound(
            abs_int(compressed as int),
            0x8000_0000,
            abs_int(spacing as int),
            0x8000_0000,
        );
        assert(abs_int(compressed as int * spacing as int) == abs_int(compressed as int) * abs_int(spacing as int)) by (nonlinear_arith);
    }
    let p: i64 = compressed as i64 * spacing as i64;
    if p < MIN_TICK as i64 {
        MIN_TICK
    } else if p > MAX_TICK as i64 {
        MAX_TICK
    } else {
        p as i32
    }
}

/// `(chunk_pos, slot)` of a compressed tick: floor division and remainder by
/// `TICKS_PER_CHUNK`.
pub fn chunk_address(compressed_tick: i32) -> (r: (i32, u32))
    ensures
        r.0 == (compressed_tick as int) / (TICKS_PER_CHUNK as int),
        r.1 == (compressed_tick as int) % (TICKS_PER_CHUNK as int),
        r.1 < 16,
{
    let chunk_pos = match compressed_tick.checked_div_euclid(TICKS_PER_CHUNK) {
        Some(v) => v,
        None => 0,
    };
    let slot = match compressed_tick.checked_rem_euclid(TICKS_PER_CHUNK) {
        Some(v) => v,
        None => 0,
    };
    (chunk_pos, slot as u32)
}

/// Chunk bitmap position `(word_pos, bit_pos)` of a chunk: floor division and
/// remainder by 256.
pub fn chunk_bitmap_position(chunk_pos: i32) -> (r: (i32, u32))
    ensures
        r.0 == (chunk_pos as int) / 256,
        r.1 == (chunk_pos as int) % 256,
        r.1 < 256,
{
    let word_pos = chunk_pos >> 8;
    let bit = chunk_pos & 255;
    assert(word_pos == chunk_pos / 256 && bit == chunk_pos % 256) by (bit_vector)
        requires
            word_pos == chunk_pos >> 8,
            bit == chunk_pos & 255,
    ;
    (word_pos, bit as u32)
}

/// Level-2 word bitmap position of a chunk-bitmap word.
pub fn word_bitmap_position(chunk_bitmap_word_pos: i32) -> (r: (i32, u32))
    ensures
        r.0 == (chunk_bitmap_word_pos as int) / 256,
        r.1 == (chunk_bitmap_word_pos as int) % 256,
        r.1 < 256,
{
    chunk_bitmap_position(chunk_bitmap_word_pos)
}

/// Bit `j` (0 = least significant) of a byte.
pub open spec fn byte_bit(x: u8, j: u8) -> bool {
    (x >> j) & 1u8 == 1u8
}

/// Bit `b` of a 256-bit big-endian word: byte `31 - b / 8`, bit `b % 8`.
pub open spec fn word_bit(word: [u8; 32], b: int) -> bool {
    byte_bit(word[31 - b / 8], (b % 8) as u8)
}

pub(crate) fn test_word_bit(word: &[u8; 32], b: u32) -> (r: bool)
    requires
        b < 256,
    ensures
        r == word_bit(*word, b as int),
{
    let byte = word[(31 - b / 8) as usize];
    let j = (b % 8) as u8;
    (byte >> j) & 1u8 == 1u8
}

/// The highest set bit at or below `from_bit` (capped at 255).
pub fn find_prev_set_bit(word: &[u8; 32], from_bit: u32) -> (r: Option<u32>)
    ensures
        ({
            let f: int = if from_bit > 255 {
                255
            } else {
                from_bit as int
            };
            match r {
                Some(b) => b <= f && word_bit(*word, b as int) && forall|k: int|
                    b < k <= f ==> !#[trigger] word_bit(*word, k),
                None => forall|k: int| 0 <= k <= f ==> !#[trigger] word_bit(*word, k),
            }
        }),
{
    let f: u32 = if from_bit > 255 {
        255
    } else {
        from_bit
    };
    let mut b: u32 = f;
    loop
        invariant
            b <= f <= 255,
            f == (if from_bit > 255 { 255 } else { from_bit }),
            forall|k: int| b < k <= f ==> !#[trigger] word_bit(*word, k),
        decreases b,
    {
        if test_word_bit(word, b) {
            return Some(b);
        }
        if b == 0 {
            return None;
        }
        b = b - 1;
    }
}

/// The lowest set bit at or above `from_bit` (capped at 255).
pub fn find_next_set_bit(word: &[u8; 32], from_bit: u32) -> (r: Option<u32>)
    ensures
        ({
            let f: int = if from_bit > 255 {
                255
            } else {
                from_bit as int
            };
            match r {
                Some(b) => f <= b <= 255 && word_bit(*word, b as int) && forall|k: int|
                    f <= k < b ==> !#[trigger] word_bit(*word, k),
                None => forall|k: int| f <= k <= 255 ==> !#[trigger] word_bit(*word, k),
            }
        }),
{
    let f: u32 = if from_bit > 255 {
        255
    } else {
        from_bit
    };
    let mut b: u32 = f;
    loop
        invariant
            f <= b <= 255,
            f == (if from_bit > 255 { 255 } else { from_bit }),
            forall|k: int| f <= k < b ==> !#[trigger] word_bit(*word, k),
        decreases 255 - b,
    {
        if test_word_bit(word, b) {
            return Some(b);
        }
        if b == 255 {
            return None;
        }
        b = b + 1;
    }
}

} // verus!
