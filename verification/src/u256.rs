//! 256-bit unsigned integer stored as four little-endian `u64` limbs.

use vstd::arithmetic::div_mod::*;
use vstd::arithmetic::mul::*;
use vstd::arithmetic::power2::*;
use vstd::bits::*;
use vstd::prelude::*;
use vstd::std_specs::bits::*;

verus! {

/// 2^64, the weight of one limb.
pub open spec fn limb_base() -> nat {
    0x1_0000_0000_0000_0000nat
}

/// 2^256, one past the largest `U256`.
pub open spec fn u256_modulus() -> nat {
    0x1_0000_0000_0000_0000_0000_0000_0000_0000_0000_0000_0000_0000_0000_0000_0000_0000nat
}

/// The number that four little-endian limbs stand for.
pub open spec fn limbs_value(l: [u64; 4]) -> nat {
    (l[0] as nat) + (l[1] as nat) * 0x1_0000_0000_0000_0000nat + (l[2] as nat)
        * 0x1_0000_0000_0000_0000_0000_0000_0000_0000nat + (l[3] as nat)
        * 0x1_0000_0000_0000_0000_0000_0000_0000_0000_0000_0000_0000_0000nat
}

/// 256-bit unsigned integer, limbs in little-endian order (`0.0[0]` is the
/// least significant).
#[derive(Clone, Copy, PartialEq, Eq, Debug)]
pub struct U256(pub [u64; 4]);

impl View for U256 {
    type V = nat;

    open spec fn view(&self) -> nat {
        limbs_value(self.0)
    }
}

/// Every limb array stands for a number below 2^256.
pub proof fn lemma_value_bound(l: [u64; 4])
    ensures
        limbs_value(l) < u256_modulus(),
{
}

/// The powers of two that the limb layout uses, as literals.
pub proof fn lemma_pow2_limb_values()
    ensures
        pow2(32) == 0x1_0000_0000nat,
        pow2(64) == limb_base(),
        pow2(96) == 0x1_0000_0000_0000_0000_0000_0000nat,
        pow2(128) == 0x1_0000_0000_0000_0000_0000_0000_0000_0000nat,
        pow2(192) == 0x1_0000_0000_0000_0000_0000_0000_0000_0000_0000_0000_0000_0000nat,
        pow2(256) == u256_modulus(),
{
    lemma2_to64();
    lemma2_to64_rest();
    lemma_pow2_adds(64, 32);
    lemma_pow2_adds(64, 64);
    lemma_pow2_adds(128, 64);
    lemma_pow2_adds(192, 64);
    assert(pow2(192) * pow2(64) == u256_modulus());
}

/// Bounds that pin down `u64::leading_zeros`.
pub proof fn lemma_u64_leading_zeros_bounds(x: u64)
    ensures
        0 <= u64_leading_zeros(x) <= 64,
        (x as nat) < pow2((64 - u64_leading_zeros(x)) as nat),
        x != 0 ==> (x as nat) >= pow2((63 - u64_leading_zeros(x)) as nat),
        x == 0 <==> u64_leading_zeros(x) == 64,
{
    axiom_u64_leading_zeros(x);
    let lz = u64_leading_zeros(x);
    lemma2_to64();
    lemma2_to64_rest();
    if lz >= 1 {
        let s = (64 - lz) as u64;
        assert(x >> s == 0);
        lemma_u64_shr_is_div(x, s);
        lemma_pow2_pos(s as nat);
        if x as nat >= pow2(s as nat) {
            lemma_div_is_ordered(pow2(s as nat) as int, x as int, pow2(s as nat) as int);
            lemma_div_by_self(pow2(s as nat) as int);
        }
    }
    if x != 0 {
        let t = (63 - lz) as u64;
        assert((x >> t) & 1u64 != 0u64);
        assert((x >> t) & 1u64 != 0u64 ==> x >> t >= 1) by (bit_vector);
        lemma_u64_shr_is_div(x, t);
        lemma_pow2_pos(t as nat);
        if (x as nat) < pow2(t as nat) {
            lemma_basic_div(x as int, pow2(t as nat) as int);
        }
    }
}

/// Each limb is recovered from the value by division and remainder.
pub proof fn lemma_limbs_from_value(l: [u64; 4])
    ensures
        l[0] == limbs_value(l) % limb_base(),
        l[1] == (limbs_value(l) / limb_base()) % limb_base(),
        l[2] == (limbs_value(l) / 0x1_0000_0000_0000_0000_0000_0000_0000_0000nat) % limb_base(),
        l[3] == limbs_value(l) / 0x1_0000_0000_0000_0000_0000_0000_0000_0000_0000_0000_0000_0000nat,
{
    let v = limbs_value(l) as int;
    let p: int = 0x1_0000_0000_0000_0000int;
    let pp: int = 0x1_0000_0000_0000_0000_0000_0000_0000_0000int;
    let ppp: int = 0x1_0000_0000_0000_0000_0000_0000_0000_0000_0000_0000_0000_0000int;
    let q1 = l[1] + l[2] * p + l[3] * pp;
    assert(v == q1 * p + l[0]);
    lemma_fundamental_div_mod_converse(v, p, q1, l[0] as int);
    let q2 = l[2] + l[3] * p;
    assert(q1 == q2 * p + l[1]);
    lemma_fundamental_div_mod_converse(q1, p, q2, l[1] as int);
    assert(v == q2 * pp + (l[0] + l[1] * p));
    lemma_fundamental_div_mod_converse(v, pp, q2, l[0] + l[1] * p);
    lemma_fundamental_div_mod_converse(q2, p, l[3] as int, l[2] as int);
    assert(v == l[3] * ppp + (l[0] + l[1] * p + l[2] * pp));
    lemma_fundamental_div_mod_converse(v, ppp, l[3] as int, l[0] + l[1] * p + l[2] * pp);
}

/// `1 << b` is `2^b` for a shift inside a limb.
proof fn lemma_one_shl(b: u64)
    requires
        b < 64,
    ensures
        (1u64 << b) as nat == pow2(b as nat),
{
    lemma2_to64();
    lemma_pow2_strictly_increases(b as nat, 64);
    lemma2_to64_rest();
    lemma_u64_shl_is_mul(1u64, b);
}

/// A limb shifted left by `b` splits into the part that stays and the part
/// that moves into the next limb.
proof fn lemma_limb_shl_split(x: u64, b: u64)
    requires
        1 <= b < 64,
    ensures
        (x << b) as nat + ((x >> ((64 - b) as u64)) as nat) * limb_base() == (x as nat) * pow2(b as nat),
        (x << b) | 0u64 == x << b,
{
    let m = 1u64 << b;
    lemma_one_shl(b);
    assert(((x as u128) * (m as u128)) == ((x << b) as u128) + (((x >> ((64 - b) as u64)) as u128)
        * 0x1_0000_0000_0000_0000u128)) by (bit_vector)
        requires
            m == 1u64 << b,
            1 <= b < 64,
    ;
    assert((x << b) | 0u64 == x << b) by (bit_vector);
}

/// Disjoint bit ranges: or-ing them adds them.
proof fn lemma_or_is_add(x: u64, y: u64, b: u64)
    requires
        1 <= b < 64,
    ensures
        (x << b) | (y >> ((64 - b) as u64)) == (x << b) + (y >> ((64 - b) as u64)),
        (x >> b) | (y << ((64 - b) as u64)) == (x >> b) + (y << ((64 - b) as u64)),
        (x << b) + (y >> ((64 - b) as u64)) <= u64::MAX,
        (x >> b) + (y << ((64 - b) as u64)) <= u64::MAX,
{
    assert((x << b) | (y >> ((64 - b) as u64)) == (x << b) + (y >> ((64 - b) as u64))) by (bit_vector)
        requires
            1 <= b < 64,
    ;
    assert((x << b) + (y >> ((64 - b) as u64)) <= u64::MAX) by (bit_vector)
        requires
            1 <= b < 64,
    ;
    assert((x >> b) | (y << ((64 - b) as u64)) == (x >> b) + (y << ((64 - b) as u64))) by (bit_vector)
        requires
            1 <= b < 64,
    ;
    assert((x >> b) + (y << ((64 - b) as u64)) <= u64::MAX) by (bit_vector)
        requires
            1 <= b < 64,
    ;
}

/// `a + b + carry` split into a limb and the carry out.
fn add_limb(a: u64, b: u64, carry: u64) -> (res: (u64, u64))
    requires
        carry <= 1,
    ensures
        res.1 <= 1,
        res.0 + res.1 * limb_base() == a + b + carry,
{
    let s: u128 = a as u128 + b as u128 + carry as u128;
    let lo = s as u64;
    let hi = (s >> 64) as u64;
    assert(lo == s % 0x1_0000_0000_0000_0000 && hi == s / 0x1_0000_0000_0000_0000) by (bit_vector)
        requires
            lo == s as u64,
            hi == (s >> 64) as u64,
    ;
    (lo, hi)
}

/// Multiplying a four-limb sum distributes over its limbs.
pub proof fn lemma_distribute_limbs(x: int, a0: int, a1: int, a2: int, a3: int)
    ensures
        (a0 + a1 * 0x1_0000_0000_0000_0000int + a2 * 0x1_0000_0000_0000_0000_0000_0000_0000_0000int + a3
            * 0x1_0000_0000_0000_0000_0000_0000_0000_0000_0000_0000_0000_0000int) * x == a0 * x + (a1 * x)
            * 0x1_0000_0000_0000_0000int + (a2 * x) * 0x1_0000_0000_0000_0000_0000_0000_0000_0000int + (a3
            * x) * 0x1_0000_0000_0000_0000_0000_0000_0000_0000_0000_0000_0000_0000int,
{
    lemma_mul_is_distributive_add_other_way(x, a0, a1 * 0x1_0000_0000_0000_0000int + a2 * 0x1_0000_0000_0000_0000_0000_0000_0000_0000int + a3 * 0x1_0000_0000_0000_0000_0000_0000_0000_0000_0000_0000_0000_0000int);
    lemma_mul_is_distributive_add_other_way(x, a1 * 0x1_0000_0000_0000_0000int, a2 * 0x1_0000_0000_0000_0000_0000_0000_0000_0000int + a3 * 0x1_0000_0000_0000_0000_0000_0000_0000_0000_0000_0000_0000_0000int);
    lemma_mul_is_distributive_add_other_way(x, a2 * 0x1_0000_0000_0000_0000_0000_0000_0000_0000int, a3 * 0x1_0000_0000_0000_0000_0000_0000_0000_0000_0000_0000_0000_0000int);
    lemma_mul_is_associative(a1, 0x1_0000_0000_0000_0000int, x);
    lemma_mul_is_commutative(0x1_0000_0000_0000_0000int, x);
    lemma_mul_is_associative(a1, x, 0x1_0000_0000_0000_0000int);
    lemma_mul_is_associative(a2, 0x1_0000_0000_0000_0000_0000_0000_0000_0000int, x);
    lemma_mul_is_commutative(0x1_0000_0000_0000_0000_0000_0000_0000_0000int, x);
    lemma_mul_is_associative(a2, x, 0x1_0000_0000_0000_0000_0000_0000_0000_0000int);
    lemma_mul_is_associative(a3, 0x1_0000_0000_0000_0000_0000_0000_0000_0000_0000_0000_0000_0000int, x);
    lemma_mul_is_commutative(0x1_0000_0000_0000_0000_0000_0000_0000_0000_0000_0000_0000_0000int, x);
    lemma_mul_is_associative(a3, x, 0x1_0000_0000_0000_0000_0000_0000_0000_0000_0000_0000_0000_0000int);
}

/// `a * b + acc + carry` split into a low limb and a high limb.
fn mac(a: u64, b: u64, acc: u64, carry: u64) -> (res: (u64, u64))
    ensures
        res.0 + res.1 * limb_base() == (a as int) * (b as int) + acc + carry,
{
    proof {
        lemma_mul_upper_bound(a as int, 0xffff_ffff_ffff_ffff, b as int, 0xffff_ffff_ffff_ffff);
    }
    let prod: u128 = (a as u128) * (b as u128) + acc as u128 + carry as u128;
    let lo = prod as u64;
    let hi = (prod >> 64) as u64;
    assert(lo == prod % 0x1_0000_0000_0000_0000 && hi == prod / 0x1_0000_0000_0000_0000) by (bit_vector)
        requires
            lo == prod as u64,
            hi == (prod >> 64) as u64,
    ;
    (lo, hi)
}

/// One schoolbook row: `ai * b + acc` as five limbs.
fn mul_row(ai: u64, b: [u64; 4], acc: [u64; 4]) -> (res: [u64; 5])
    ensures
        res[0] + res[1] * 0x1_0000_0000_0000_0000int + res[2] * 0x1_0000_0000_0000_0000_0000_0000_0000_0000int
            + res[3] * 0x1_0000_0000_0000_0000_0000_0000_0000_0000_0000_0000_0000_0000int + res[4]
            * 0x1_0000_0000_0000_0000_0000_0000_0000_0000_0000_0000_0000_0000_0000_0000_0000_0000int == (ai as int)
            * limbs_value(b) + limbs_value(acc),
{
    let (l0, c0) = mac(ai, b[0], acc[0], 0);
    let (l1, c1) = mac(ai, b[1], acc[1], c0);
    let (l2, c2) = mac(ai, b[2], acc[2], c1);
    let (l3, c3) = mac(ai, b[3], acc[3], c2);
    proof {
        let p: int = 0x1_0000_0000_0000_0000int;
        let p2: int = 0x1_0000_0000_0000_0000_0000_0000_0000_0000int;
        let p3: int = 0x1_0000_0000_0000_0000_0000_0000_0000_0000_0000_0000_0000_0000int;
        let x = ai as int;
        lemma_distribute_limbs(x, b[0] as int, b[1] as int, b[2] as int, b[3] as int);
        lemma_mul_is_commutative(x, limbs_value(b) as int);
        lemma_mul_is_commutative(x, b[0] as int);
        lemma_mul_is_commutative(x, b[1] as int);
        lemma_mul_is_commutative(x, b[2] as int);
        lemma_mul_is_commutative(x, b[3] as int);
    }
    [l0, l1, l2, l3, c3]
}

fn sub_limb(a: u64, b: u64, borrow: u64) -> (res: (u64, u64))
    requires
        borrow <= 1,
    ensures
        res.1 <= 1,
        res.0 - res.1 * limb_base() == a - b - borrow,
{
    if (a as u128) >= (b as u128) + (borrow as u128) {
        (a - b - borrow, 0)
    } else {
        let d: u128 = (a as u128) + 0x1_0000_0000_0000_0000u128 - (b as u128) - (borrow as u128);
        (d as u64, 1)
    }
}

impl U256 {
    /// The value 0.
    pub fn zero() -> (r: U256)
        ensures
            r@ == 0,
    {
        U256([0, 0, 0, 0])
    }

    /// The value 1.
    pub fn one() -> (r: U256)
        ensures
            r@ == 1,
    {
        U256([1, 0, 0, 0])
    }

    /// The value 2^256 - 1.
    pub fn max_value() -> (r: U256)
        ensures
            r@ == u256_modulus() - 1,
    {
        U256([0xffff_ffff_ffff_ffff, 0xffff_ffff_ffff_ffff, 0xffff_ffff_ffff_ffff, 0xffff_ffff_ffff_ffff])
    }

    pub fn from_u128(v: u128) -> (r: U256)
        ensures
            r@ == v,
    {
        let lo = v as u64;
        let hi = (v >> 64) as u64;
        assert(lo == v % 0x1_0000_0000_0000_0000 && hi == v / 0x1_0000_0000_0000_0000) by (bit_vector)
            requires lo == v as u64, hi == (v >> 64) as u64;
        U256([lo, hi, 0, 0])
    }

    pub fn from_u64(v: u64) -> (r: U256)
        ensures
            r@ == v,
    {
        U256([v, 0, 0, 0])
    }

    /// The value as a `u128`, when it fits.
    pub fn to_u128(&self) -> (r: Option<u128>)
        ensures
            r == (if self@ < 0x1_0000_0000_0000_0000_0000_0000_0000_0000nat {
                Some(self@ as u128)
            } else {
                None::<u128>
            }),
    {
        if self.0[2] != 0 || self.0[3] != 0 {
            return None;
        }
        let lo = self.0[0];
        let hi = self.0[1];
        let v: u128 = (hi as u128) << 64 | lo as u128;
        assert(v == lo + hi * 0x1_0000_0000_0000_0000u128) by (bit_vector)
            requires
                v == (hi as u128) << 64 | lo as u128,
        ;
        Some(v)
    }

    pub fn is_zero(&self) -> (r: bool)
        ensures
            r == (self@ == 0),
    {
        self.0[0] == 0 && self.0[1] == 0 && self.0[2] == 0 && self.0[3] == 0
    }

    /// Number of leading zero bits among the 256.
    pub fn leading_zeros(&self) -> (r: u32)
        ensures
            r <= 256,
            self@ < pow2((256 - r) as nat),
            self@ != 0 ==> self@ >= pow2((255 - r) as nat),
    {
        proof {
            lemma_pow2_limb_values();
        }
        if self.0[3] != 0 {
            let z = self.0[3].leading_zeros();
            proof {
                lemma_u64_leading_zeros_bounds(self.0[3]);
                self.lemma_leading_zeros_at(3, z as nat);
            }
            return z;
        }
        if self.0[2] != 0 {
            let z = self.0[2].leading_zeros();
            proof {
                lemma_u64_leading_zeros_bounds(self.0[2]);
                self.lemma_leading_zeros_at(2, z as nat);
            }
            return 64 + z;
        }
        if self.0[1] != 0 {
            let z = self.0[1].leading_zeros();
            proof {
                lemma_u64_leading_zeros_bounds(self.0[1]);
                self.lemma_leading_zeros_at(1, z as nat);
            }
            return 128 + z;
        }
        let z = self.0[0].leading_zeros();
        proof {
            lemma_u64_leading_zeros_bounds(self.0[0]);
            self.lemma_leading_zeros_at(0, z as nat);
        }
        192 + z
    }

    proof fn lemma_leading_zeros_at(&self, k: int, z: nat)
        requires
            0 <= k < 4,
            forall|j: int| k < j < 4 ==> self.0[j] == 0,
            k > 0 ==> self.0[k] != 0,
            z <= 64,
            (self.0[k] as nat) < pow2((64 - z) as nat),
            self.0[k] != 0 ==> (self.0[k] as nat) >= pow2((63 - z) as nat),
        ensures
            self@ < pow2((256 - (64 * (3 - k) + z)) as nat),
            self@ != 0 ==> self@ >= pow2((255 - (64 * (3 - k) + z)) as nat),
    {
        lemma_pow2_limb_values();
        let e: nat = (64 * k) as nat;
        let top = self.0[k] as nat;
        let below: nat = if k == 0 {
            0
        } else if k == 1 {
            self.0[0] as nat
        } else if k == 2 {
            (self.0[0] + self.0[1] * limb_base()) as nat
        } else {
            (self.0[0] + self.0[1] * limb_base() + self.0[2] * pow2(128)) as nat
        };
        if k == 0 {
            assert(pow2(e) == 1) by { lemma2_to64(); }
        } else if k == 1 {
            assert(pow2(e) == limb_base());
        } else if k == 2 {
            assert(pow2(e) == pow2(128));
        } else {
            assert(pow2(e) == pow2(192));
        }
        assert(below < pow2(e));
        assert(self@ == below + top * pow2(e));
        lemma_pow2_adds((64 - z) as nat, e);
        lemma_mul_inequality((top + 1) as int, pow2((64 - z) as nat) as int, pow2(e) as int);
        assert(self@ < pow2((64 - z) as nat) * pow2(e));
        if self@ != 0 {
            assert(top != 0);
            lemma_pow2_adds((63 - z) as nat, e);
            lemma_mul_inequality(pow2((63 - z) as nat) as int, top as int, pow2(e) as int);
        }
    }

    pub fn bit_length(&self) -> (r: u32)
        ensures
            r <= 256,
            self@ < pow2(r as nat),
            self@ != 0 ==> self@ >= pow2((r - 1) as nat),
    {
        256 - self.leading_zeros()
    }

    /// `self == other`, comparing limbs.
    pub fn equals(&self, other: &U256) -> (r: bool)
        ensures
            r == (self@ == other@),
    {
        proof {
            self.lemma_view_injective(*other);
        }
        self.0[0] == other.0[0] && self.0[1] == other.0[1] && self.0[2] == other.0[2] && self.0[3]
            == other.0[3]
    }

    /// Two values with the same number have the same limbs.
    pub proof fn lemma_view_injective(self, other: U256)
        ensures
            self@ == other@ <==> self == other,
    {
        if self@ == other@ {
            lemma_limbs_from_value(self.0);
            lemma_limbs_from_value(other.0);
            assert(self.0 =~= other.0);
        }
    }

    /// `self < other`, comparing from the most significant limb down.
    pub fn less_than(&self, other: &U256) -> (r: bool)
        ensures
            r == (self@ < other@),
    {
        let mut i: usize = 4;
        while i > 0
            invariant
                i <= 4,
                forall|j: int| i <= j < 4 ==> self.0[j] == other.0[j],
            decreases i,
        {
            let k = i - 1;
            if self.0[k] != other.0[k] {
                proof {
                    self.lemma_less_at(*other, k as int);
                }
                return self.0[k] < other.0[k];
            }
            i = k;
        }
        proof {
            assert(self.0 =~= other.0);
        }
        false
    }

    proof fn lemma_less_at(self, other: U256, k: int)
        requires
            0 <= k < 4,
            forall|j: int| k < j < 4 ==> self.0[j] == other.0[j],
            self.0[k] != other.0[k],
        ensures
            (self@ < other@) == (self.0[k] < other.0[k]),
    {
    }

    pub fn wrapping_add(&self, other: &U256) -> (r: U256)
        ensures
            r@ == (self@ + other@) % u256_modulus(),
    {
        let (s0, c0) = add_limb(self.0[0], other.0[0], 0);
        let (s1, c1) = add_limb(self.0[1], other.0[1], c0);
        let (s2, c2) = add_limb(self.0[2], other.0[2], c1);
        let (s3, c3) = add_limb(self.0[3], other.0[3], c2);
        let r = U256([s0, s1, s2, s3]);
        proof {
            assert(self@ + other@ == r@ + c3 * u256_modulus());
            lemma_fundamental_div_mod_converse_mod(
                (self@ + other@) as int,
                u256_modulus() as int,
                c3 as int,
                r@ as int,
            );
        }
        r
    }

    pub fn wrapping_sub(&self, other: &U256) -> (r: U256)
        ensures
            r@ == (self@ - other@) % (u256_modulus() as int),
    {
        let (d0, b0) = sub_limb(self.0[0], other.0[0], 0);
        let (d1, b1) = sub_limb(self.0[1], other.0[1], b0);
        let (d2, b2) = sub_limb(self.0[2], other.0[2], b1);
        let (d3, b3) = sub_limb(self.0[3], other.0[3], b2);
        let r = U256([d0, d1, d2, d3]);
        proof {
            assert(self@ - other@ == r@ - b3 * u256_modulus());
            lemma_fundamental_div_mod_converse_mod(
                self@ - other@,
                u256_modulus() as int,
                -(b3 as int),
                r@ as int,
            );
        }
        r
    }
}


impl U256 {
    /// Shift left by whole limbs.
    fn shl_words(&self, ws: u32) -> (r: U256)
        requires
            ws < 4,
        ensures
            r@ == (self@ * pow2(64 * ws as nat)) % u256_modulus(),
    {
        proof {
            lemma_pow2_limb_values();
            lemma2_to64();
        }
        let a = self.0;
        let r = if ws == 0 {
            U256(a)
        } else if ws == 1 {
            U256([0, a[0], a[1], a[2]])
        } else if ws == 2 {
            U256([0, 0, a[0], a[1]])
        } else {
            U256([0, 0, 0, a[0]])
        };
        proof {
            let m = u256_modulus() as int;
            let v = self@ as int;
            lemma_value_bound(self.0);
            lemma_value_bound(r.0);
            if ws == 0 {
                assert(64 * ws as nat == 0);
                assert(v * pow2(0) == v);
                lemma_small_mod(self@, u256_modulus());
            } else if ws == 1 {
                assert(64 * ws as nat == 64);
                assert(v * pow2(64) == r@ + a[3] * m);
                lemma_fundamental_div_mod_converse_mod(v * pow2(64), m, a[3] as int, r@ as int);
            } else if ws == 2 {
                assert(64 * ws as nat == 128);
                assert(v * pow2(128) == r@ + (a[2] + a[3] * 0x1_0000_0000_0000_0000int) * m);
                lemma_fundamental_div_mod_converse_mod(
                    v * pow2(128),
                    m,
                    a[2] + a[3] * 0x1_0000_0000_0000_0000int,
                    r@ as int,
                );
            } else {
                assert(64 * ws as nat == 192);
                assert(v * pow2(192) == r@ + (a[1] + a[2] * 0x1_0000_0000_0000_0000int + a[3]
                    * 0x1_0000_0000_0000_0000_0000_0000_0000_0000int) * m);
                lemma_fundamental_div_mod_converse_mod(
                    v * pow2(192),
                    m,
                    a[1] + a[2] * 0x1_0000_0000_0000_0000int + a[3]
                        * 0x1_0000_0000_0000_0000_0000_0000_0000_0000int,
                    r@ as int,
                );
            }
        }
        r
    }

    /// Shift left by `b` bits, `0 < b < 64`.
    fn shl_bits(&self, b: u64) -> (r: U256)
        requires
            1 <= b < 64,
        ensures
            r@ == (self@ * pow2(b as nat)) % u256_modulus(),
    {
        let a = self.0;
        let c = 64 - b;
        let r0 = a[0] << b;
        let r1 = (a[1] << b) | (a[0] >> c);
        let r2 = (a[2] << b) | (a[1] >> c);
        let r3 = (a[3] << b) | (a[2] >> c);
        let r = U256([r0, r1, r2, r3]);
        proof {
            lemma_limb_shl_split(a[0], b);
            lemma_limb_shl_split(a[1], b);
            lemma_limb_shl_split(a[2], b);
            lemma_limb_shl_split(a[3], b);
            lemma_or_is_add(a[1], a[0], b);
            lemma_or_is_add(a[2], a[1], b);
            lemma_or_is_add(a[3], a[2], b);
            let m = pow2(b as nat) as int;
            let p: int = 0x1_0000_0000_0000_0000int;
            let x0 = a[0] as int;
            let x1 = a[1] as int;
            let x2 = a[2] as int;
            let x3 = a[3] as int;
            assert((x0 + x1 * p + x2 * (p * p) + x3 * (p * p * p)) * m == x0 * m + (x1 * m) * p + (
            x2 * m) * (p * p) + (x3 * m) * (p * p * p)) by (nonlinear_arith);
            let hi3 = (a[3] >> c) as int;
            assert(self@ == x0 + x1 * p + x2 * (p * p) + x3 * (p * p * p));
            assert(r@ == r0 + r1 * p + r2 * (p * p) + r3 * (p * p * p));
            assert(r0 == x0 * m - (a[0] >> c) * p);
            assert(r1 == x1 * m - (a[1] >> c) * p + (a[0] >> c));
            assert(r2 == x2 * m - (a[2] >> c) * p + (a[1] >> c));
            assert(r3 == x3 * m - (a[3] >> c) * p + (a[2] >> c));
            assert(u256_modulus() == p * p * p * p);
            let r0i = r0 as int;
            let r1i = r1 as int;
            let r2i = r2 as int;
            let r3i = r3 as int;
            let h0 = (a[0] >> c) as int;
            let h1 = (a[1] >> c) as int;
            let h2 = (a[2] >> c) as int;
            assert(r0i + r1i * p + r2i * (p * p) + r3i * (p * p * p) == (x0 * m) + (x1 * m) * p + (x2
                * m) * (p * p) + (x3 * m) * (p * p * p) - hi3 * (p * p * p * p)) by (nonlinear_arith)
                requires
                    r0i == x0 * m - h0 * p,
                    r1i == x1 * m - h1 * p + h0,
                    r2i == x2 * m - h2 * p + h1,
                    r3i == x3 * m - hi3 * p + h2,
            ;
            assert(self@ * m == r@ + hi3 * u256_modulus());
            lemma_value_bound(r.0);
            lemma_fundamental_div_mod_converse_mod(
                self@ * m,
                u256_modulus() as int,
                hi3,
                r@ as int,
            );
        }
        r
    }

    /// Shift left by `shift` bits, dropping what moves past bit 255.
    pub fn shl(&self, shift: u32) -> (r: U256)
        ensures
            r@ == (self@ * pow2(shift as nat)) % u256_modulus(),
    {
        if shift >= 256 {
            proof {
                lemma_pow2_limb_values();
                lemma_pow2_adds((shift - 256) as nat, 256);
                lemma_mul_is_associative(self@ as int, pow2((shift - 256) as nat) as int, u256_modulus() as int);
                lemma_mod_multiples_basic((self@ * pow2((shift - 256) as nat)) as int, u256_modulus() as int);
            }
            return U256([0, 0, 0, 0]);
        }
        if shift == 0 {
            proof {
                lemma2_to64();
                lemma_value_bound(self.0);
                lemma_small_mod(self@, u256_modulus());
            }
            return *self;
        }
        let word_shift = shift / 64;
        let bit_shift = shift % 64;
        let w = self.shl_words(word_shift);
        if bit_shift == 0 {
            return w;
        }
        let r = w.shl_bits(bit_shift as u64);
        proof {
            let m = u256_modulus() as int;
            let pw = pow2(64 * word_shift as nat) as int;
            let pb = pow2(bit_shift as nat) as int;
            lemma_pow2_adds(64 * word_shift as nat, bit_shift as nat);
            lemma_mul_mod_noop_left(self@ * pw, pb, m);
            lemma_mul_is_associative(self@ as int, pw, pb);
        }
        r
    }
}

impl U256 {
    /// Shift right by whole limbs.
    fn shr_words(&self, ws: u32) -> (r: U256)
        requires
            ws < 4,
        ensures
            r@ == self@ / pow2(64 * ws as nat),
    {
        proof {
            lemma_pow2_limb_values();
            lemma2_to64();
        }
        let a = self.0;
        let r = if ws == 0 {
            U256(a)
        } else if ws == 1 {
            U256([a[1], a[2], a[3], 0])
        } else if ws == 2 {
            U256([a[2], a[3], 0, 0])
        } else {
            U256([a[3], 0, 0, 0])
        };
        proof {
            let v = self@ as int;
            let p: int = 0x1_0000_0000_0000_0000int;
            if ws == 0 {
                assert(64 * ws as nat == 0);
            } else if ws == 1 {
                assert(64 * ws as nat == 64);
                assert(v == r@ * p + a[0]);
                lemma_fundamental_div_mod_converse_div(v, p, r@ as int, a[0] as int);
            } else if ws == 2 {
                assert(64 * ws as nat == 128);
                assert(v == r@ * (p * p) + (a[0] + a[1] * p));
                lemma_fundamental_div_mod_converse_div(v, p * p, r@ as int, a[0] + a[1] * p);
            } else {
                assert(64 * ws as nat == 192);
                assert(v == r@ * (p * p * p) + (a[0] + a[1] * p + a[2] * (p * p)));
                lemma_fundamental_div_mod_converse_div(
                    v,
                    p * p * p,
                    r@ as int,
                    a[0] + a[1] * p + a[2] * (p * p),
                );
            }
        }
        r
    }

    /// Shift right by `b` bits, `0 < b < 64`.
    fn shr_bits(&self, b: u64) -> (r: U256)
        requires
            1 <= b < 64,
        ensures
            r@ == self@ / pow2(b as nat),
    {
        let a = self.0;
        let c = 64 - b;
        let r0 = (a[0] >> b) | (a[1] << c);
        let r1 = (a[1] >> b) | (a[2] << c);
        let r2 = (a[2] >> b) | (a[3] << c);
        let r3 = a[3] >> b;
        let r = U256([r0, r1, r2, r3]);
        proof {
            lemma_limb_shl_split(a[1], c);
            lemma_limb_shl_split(a[2], c);
            lemma_limb_shl_split(a[3], c);
            lemma_or_is_add(a[0], a[1], b);
            lemma_or_is_add(a[1], a[2], b);
            lemma_or_is_add(a[2], a[3], b);
            lemma_u64_shr_is_div(a[0], b);
            lemma_u64_shr_is_div(a[1], b);
            lemma_u64_shr_is_div(a[2], b);
            lemma_u64_shr_is_div(a[3], b);
            lemma_pow2_adds(b as nat, c as nat);
            lemma_pow2_limb_values();
            lemma_pow2_pos(b as nat);
            let mb = pow2(b as nat) as int;
            let mc = pow2(c as nat) as int;
            let p: int = 0x1_0000_0000_0000_0000int;
            let p2: int = 0x1_0000_0000_0000_0000_0000_0000_0000_0000int;
            let p3: int = 0x1_0000_0000_0000_0000_0000_0000_0000_0000_0000_0000_0000_0000int;
            assert(mb * mc == p);
            let x0 = a[0] as int;
            let x1 = a[1] as int;
            let x2 = a[2] as int;
            let x3 = a[3] as int;
            let g0 = (a[0] >> b) as int;
            let g1 = (a[1] >> b) as int;
            let g2 = (a[2] >> b) as int;
            let g3 = (a[3] >> b) as int;
            let s1 = (a[1] << c) as int;
            let s2 = (a[2] << c) as int;
            let s3 = (a[3] << c) as int;
            lemma_fundamental_div_mod(x0, mb);
            let low = x0 % mb;
            assert(x0 == g0 * mb + low) by {
                lemma_mul_is_commutative(g0, mb);
            }
            assert(s1 == x1 * mc - g1 * p);
            assert(s2 == x2 * mc - g2 * p);
            assert(s3 == x3 * mc - g3 * p);
            let r0i = r0 as int;
            let r1i = r1 as int;
            let r2i = r2 as int;
            let r3i = r3 as int;
            assert(r0i == g0 + s1);
            assert(r1i == g1 + s2);
            assert(r2i == g2 + s3);
            assert(r3i == g3);
            lemma_distribute_limbs(mb, r0i, r1i, r2i, r3i);
            assert(s1 * mb == x1 * p - (g1 * mb) * p) by (nonlinear_arith)
                requires
                    mb * mc == p,
                    s1 == x1 * mc - g1 * p,
            ;
            assert(s2 * mb == x2 * p - (g2 * mb) * p) by (nonlinear_arith)
                requires
                    mb * mc == p,
                    s2 == x2 * mc - g2 * p,
            ;
            assert(s3 * mb == x3 * p - (g3 * mb) * p) by (nonlinear_arith)
                requires
                    mb * mc == p,
                    s3 == x3 * mc - g3 * p,
            ;
            assert(r0i * mb == g0 * mb + s1 * mb) by (nonlinear_arith)
                requires
                    r0i == g0 + s1,
            ;
            assert(r1i * mb == g1 * mb + s2 * mb) by (nonlinear_arith)
                requires
                    r1i == g1 + s2,
            ;
            assert(r2i * mb == g2 * mb + s3 * mb) by (nonlinear_arith)
                requires
                    r2i == g2 + s3,
            ;
            assert((r0i + r1i * p + r2i * p2 + r3i * p3) * mb + low == x0 + x1 * p + x2 * p2 + x3 * p3);
            assert(r@ == r0i + r1i * p + r2i * p2 + r3i * p3);
            assert(self@ == x0 + x1 * p + x2 * p2 + x3 * p3);
            lemma_mod_pos_bound(x0, mb);
            lemma_fundamental_div_mod_converse_div(self@ as int, mb, r@ as int, low);
        }
        r
    }

    /// Shift right by `shift` bits.
    pub fn shr(&self, shift: u32) -> (r: U256)
        ensures
            r@ == self@ / pow2(shift as nat),
    {
        if shift >= 256 {
            proof {
                lemma_pow2_limb_values();
                lemma_value_bound(self.0);
                if shift > 256 {
                    lemma_pow2_strictly_increases(256, shift as nat);
                }
                lemma_basic_div(self@ as int, pow2(shift as nat) as int);
            }
            return U256([0, 0, 0, 0]);
        }
        if shift == 0 {
            proof {
                lemma2_to64();
                assert(self@ / 1 == self@);
            }
            return *self;
        }
        let word_shift = shift / 64;
        let bit_shift = shift % 64;
        let w = self.shr_words(word_shift);
        if bit_shift == 0 {
            return w;
        }
        let r = w.shr_bits(bit_shift as u64);
        proof {
            let pw = pow2(64 * word_shift as nat) as int;
            let pb = pow2(bit_shift as nat) as int;
            lemma_pow2_pos(64 * word_shift as nat);
            lemma_pow2_pos(bit_shift as nat);
            lemma_pow2_adds(64 * word_shift as nat, bit_shift as nat);
            lemma_div_denominator(self@ as int, pw, pb);
        }
        r
    }
}

impl U256 {
    /// Full 512-bit product, as (low 256 bits, high 256 bits).
    pub fn full_mul(&self, other: &U256) -> (res: (U256, U256))
        ensures
            res.0@ + res.1@ * u256_modulus() == self@ * other@,
    {
        let a = self.0;
        let b = other.0;
        let t0 = mul_row(a[0], b, [0, 0, 0, 0]);
        let t1 = mul_row(a[1], b, [t0[1], t0[2], t0[3], t0[4]]);
        let t2 = mul_row(a[2], b, [t1[1], t1[2], t1[3], t1[4]]);
        let t3 = mul_row(a[3], b, [t2[1], t2[2], t2[3], t2[4]]);
        let lo = U256([t0[0], t1[0], t2[0], t3[0]]);
        let hi = U256([t3[1], t3[2], t3[3], t3[4]]);
        proof {
            let p: int = 0x1_0000_0000_0000_0000int;
            let p2: int = 0x1_0000_0000_0000_0000_0000_0000_0000_0000int;
            let p3: int = 0x1_0000_0000_0000_0000_0000_0000_0000_0000_0000_0000_0000_0000int;
            let p4: int = 0x1_0000_0000_0000_0000_0000_0000_0000_0000_0000_0000_0000_0000_0000_0000_0000_0000int;
            let bv = other@ as int;
            let y0 = (a[0] as int) * bv;
            let y1 = (a[1] as int) * bv;
            let y2 = (a[2] as int) * bv;
            let y3 = (a[3] as int) * bv;
            assert(limbs_value([0u64, 0, 0, 0]) == 0);
            let v3 = t3[0] + t3[1] * p + t3[2] * p2 + t3[3] * p3 + t3[4] * p4;
            let v2 = t2[0] + t2[1] * p + t2[2] * p2 + t2[3] * p3 + t2[4] * p4;
            let v1 = t1[0] + t1[1] * p + t1[2] * p2 + t1[3] * p3 + t1[4] * p4;
            let v0 = t0[0] + t0[1] * p + t0[2] * p2 + t0[3] * p3 + t0[4] * p4;
            assert(v0 == y0);
            assert(v1 == y1 + t0[1] + t0[2] * p + t0[3] * p2 + t0[4] * p3);
            assert(v2 == y2 + t1[1] + t1[2] * p + t1[3] * p2 + t1[4] * p3);
            assert(v3 == y3 + t2[1] + t2[2] * p + t2[3] * p2 + t2[4] * p3);
            assert(lo@ + hi@ * u256_modulus() == y0 + y1 * p + y2 * p2 + y3 * p3);
            lemma_distribute_limbs(bv, a[0] as int, a[1] as int, a[2] as int, a[3] as int);
        }
        (lo, hi)
    }

    /// Product modulo 2^256.
    pub fn wrapping_mul(&self, other: &U256) -> (r: U256)
        ensures
            r@ == (self@ * other@) % u256_modulus(),
    {
        let (lo, hi) = self.full_mul(other);
        proof {
            lemma_value_bound(lo.0);
            lemma_fundamental_div_mod_converse_mod(
                (self@ * other@) as int,
                u256_modulus() as int,
                hi@ as int,
                lo@ as int,
            );
        }
        lo
    }
}

impl U256 {
    /// Lowest bit of the value.
    pub fn low_bit(&self) -> (r: u64)
        ensures
            r == self@ % 2,
    {
        let x = self.0[0];
        let r = x & 1;
        assert(r == x % 2) by (bit_vector)
            requires
                r == x & 1,
        ;
        proof {
            let q = self.0[1] * 0x8000_0000_0000_0000int + self.0[2] * 0x8000_0000_0000_0000_0000_0000_0000_0000int
                + self.0[3] * 0x8000_0000_0000_0000_0000_0000_0000_0000_0000_0000_0000_0000int + x / 2;
            assert(self@ == 2 * q + x % 2);
            lemma_fundamental_div_mod_converse_mod(self@ as int, 2, q, (x % 2) as int);
        }
        r
    }

    /// `2 * self + bit`, for a value below 2^255.
    fn double_plus(&self, bit: u64) -> (r: U256)
        requires
            bit <= 1,
            2 * self@ + bit < u256_modulus(),
        ensures
            r@ == 2 * self@ + bit,
    {
        let d = self.shl(1);
        proof {
            lemma2_to64();
            lemma_small_mod((self@ * 2) as nat, u256_modulus());
        }
        if bit == 0 {
            return d;
        }
        let x = d.0[0];
        proof {
            let q = d.0[1] * 0x8000_0000_0000_0000int + d.0[2] * 0x8000_0000_0000_0000_0000_0000_0000_0000int
                + d.0[3] * 0x8000_0000_0000_0000_0000_0000_0000_0000_0000_0000_0000_0000int + x / 2;
            assert(d@ == 2 * q + x % 2);
            lemma_fundamental_div_mod_converse_mod(d@ as int, 2, q, (x % 2) as int);
            lemma_mod_multiples_basic(self@ as int, 2);
        }
        let y = x | 1;
        assert(y == x + 1) by (bit_vector)
            requires
                y == x | 1,
                x % 2 == 0,
        ;
        U256([y, d.0[1], d.0[2], d.0[3]])
    }

    /// Quotient and remainder by binary long division.
    pub fn div_rem(&self, divisor: &U256) -> (res: (U256, U256))
        requires
            divisor@ != 0,
        ensures
            res.0@ == self@ / divisor@,
            res.1@ == self@ % divisor@,
            res.0@ * divisor@ + res.1@ == self@,
            res.1@ < divisor@,
    {
        proof {
            vstd::arithmetic::div_mod::lemma_fundamental_div_mod(self@ as int, divisor@ as int);
            assert(divisor@ * (self@ / divisor@) == (self@ / divisor@) * divisor@) by (nonlinear_arith);
        }
        if self.less_than(divisor) {
            proof {
                lemma_basic_div(self@ as int, divisor@ as int);
                lemma_small_mod(self@, divisor@);
            }
            return (U256([0, 0, 0, 0]), *self);
        }
        if self.equals(divisor) {
            proof {
                lemma_div_by_self(divisor@ as int);
                lemma_mod_self_0(divisor@ as int);
            }
            return (U256([1, 0, 0, 0]), U256([0, 0, 0, 0]));
        }
        let dividend_bits = self.bit_length();
        let mut quotient = U256([0, 0, 0, 0]);
        let mut remainder = U256([0, 0, 0, 0]);
        let ghost n = self@ as int;
        let ghost d = divisor@ as int;
        proof {
            lemma_basic_div(n, pow2(dividend_bits as nat) as int);
            lemma_basic_div(0, d);
            lemma_small_mod(0, d as nat);
        }
        let mut i: u32 = dividend_bits;
        while i > 0
            invariant
                i <= dividend_bits <= 256,
                d == divisor@,
                d > 0,
                n == self@,
                n < pow2(dividend_bits as nat),
                remainder@ == (n / pow2(i as nat) as int) % d,
                quotient@ == (n / pow2(i as nat) as int) / d,
            decreases i,
        {
            let ghost prefix = n / pow2(i as nat) as int;
            i = i - 1;
            let bit = self.shr(i).low_bit();
            let ghost next = n / pow2(i as nat) as int;
            proof {
                lemma_prefix_step(n, i as nat);
                lemma_div_step(prefix, d, bit as int, remainder@ as int, quotient@ as int);
                lemma_pow2_pos(i as nat);
                lemma_div_is_ordered_by_denominator(n, 1, pow2(i as nat) as int);
                lemma_value_bound(self.0);
                assert(n / 1 == n);
            }
            remainder = remainder.double_plus(bit);
            let q2 = quotient.double_plus(0);
            if !remainder.less_than(divisor) {
                remainder = remainder.wrapping_sub(divisor);
                proof {
                    lemma_small_mod((2 * (prefix % d) + bit - d) as nat, u256_modulus());
                    lemma_mod_multiples_basic(quotient@ as int, 2);
                }
                quotient = q2.double_plus_one_adjust();
            } else {
                quotient = q2;
            }
        }
        proof {
            lemma2_to64();
            assert(n / 1 == n);
        }
        (quotient, remainder)
    }

    /// `self + 1` for an even value (sets the lowest bit).
    pub fn double_plus_one_adjust(&self) -> (r: U256)
        requires
            self@ % 2 == 0,
            self@ + 1 < u256_modulus(),
        ensures
            r@ == self@ + 1,
    {
        let x = self.0[0];
        proof {
            let q = self.0[1] * 0x8000_0000_0000_0000int + self.0[2] * 0x8000_0000_0000_0000_0000_0000_0000_0000int
                + self.0[3] * 0x8000_0000_0000_0000_0000_0000_0000_0000_0000_0000_0000_0000int + x / 2;
            assert(self@ == 2 * q + x % 2);
            lemma_fundamental_div_mod_converse_mod(self@ as int, 2, q, (x % 2) as int);
        }
        let y = x | 1;
        assert(y == x + 1) by (bit_vector)
            requires
                y == x | 1,
                x % 2 == 0,
        ;
        U256([y, self.0[1], self.0[2], self.0[3]])
    }

    pub fn div(&self, other: &U256) -> (r: U256)
        requires
            other@ != 0,
        ensures
            r@ == self@ / other@,
    {
        self.div_rem(other).0
    }

    pub fn rem(&self, other: &U256) -> (r: U256)
        requires
            other@ != 0,
        ensures
            r@ == self@ % other@,
    {
        self.div_rem(other).1
    }
}

/// One more bit of the dividend: the prefix doubles and takes the bit.
pub proof fn lemma_prefix_step(n: int, i: nat)
    requires
        n >= 0,
    ensures
        n / (pow2(i) as int) == 2 * (n / (pow2(i + 1) as int)) + (n / (pow2(i) as int)) % 2,
        (n / (pow2(i) as int)) % 2 == 0 || (n / (pow2(i) as int)) % 2 == 1,
{
    let pi = pow2(i) as int;
    lemma_pow2_pos(i);
    lemma_pow2_unfold(i + 1);
    assert(pow2(i + 1) == 2 * pow2(i));
    lemma_div_denominator(n, pi, 2);
    lemma_mul_is_commutative(pi, 2);
    lemma_fundamental_div_mod(n / pi, 2);
    lemma_mod_pos_bound(n / pi, 2);
}

/// One step of long division.
pub proof fn lemma_div_step(prefix: int, d: int, bit: int, rem: int, q: int)
    requires
        prefix >= 0,
        d > 0,
        0 <= bit <= 1,
        rem == prefix % d,
        q == prefix / d,
    ensures
        0 <= 2 * rem + bit <= 2 * prefix + bit,
        2 * rem + bit < 2 * d,
        q >= 0,
        q <= prefix,
        (2 * prefix + bit) / d <= 2 * prefix + bit,
        2 * rem + bit >= d ==> (2 * rem + bit - d == (2 * prefix + bit) % d && 2 * q + 1 == (2 * prefix
            + bit) / d),
        2 * rem + bit < d ==> (2 * rem + bit == (2 * prefix + bit) % d && 2 * q == (2 * prefix + bit)
            / d),
{
    lemma_fundamental_div_mod(prefix, d);
    lemma_mod_pos_bound(prefix, d);
    lemma_div_pos_is_pos(prefix, d);
    lemma_mod_le(prefix, d);
    let next = 2 * prefix + bit;
    assert(next == (2 * q) * d + (2 * rem + bit)) by (nonlinear_arith)
        requires
            prefix == d * q + rem,
            next == 2 * prefix + bit,
    ;
    if 2 * rem + bit >= d {
        assert(next == (2 * q + 1) * d + (2 * rem + bit - d)) by (nonlinear_arith)
            requires
                next == (2 * q) * d + (2 * rem + bit),
        ;
        lemma_fundamental_div_mod_converse(next, d, 2 * q + 1, 2 * rem + bit - d);
    } else {
        lemma_fundamental_div_mod_converse(next, d, 2 * q, 2 * rem + bit);
    }
    assert(q <= prefix) by {
        lemma_div_is_ordered_by_denominator(prefix, 1, d);
    }
    lemma_div_is_ordered_by_denominator(next, 1, d);
}

proof fn lemma_mod_le(x: int, d: int)
    requires
        x >= 0,
        d > 0,
    ensures
        x % d <= x,
{
    lemma_fundamental_div_mod(x, d);
    lemma_div_pos_is_pos(x, d);
    lemma_mul_nonnegative(d, x / d);
}

impl U256 {
    /// Whether the top bit (bit 255) is set.
    pub fn top_bit_set(&self) -> (r: bool)
        ensures
            r == (self@ >= 0x8000_0000_0000_0000_0000_0000_0000_0000_0000_0000_0000_0000_0000_0000_0000_0000nat),
    {
        let x = self.0[3];
        let t = x >> 63;
        assert((t != 0) == (x >= 0x8000_0000_0000_0000u64)) by (bit_vector)
            requires
                t == x >> 63,
        ;
        t != 0
    }

    /// `(2 * self + bit) mod 2^256`.
    pub fn shl1_with_bit(&self, bit: u64) -> (r: U256)
        requires
            bit <= 1,
        ensures
            r@ == ((2 * self@ + bit) as nat) % u256_modulus(),
    {
        let d = self.shl(1);
        proof {
            lemma2_to64();
            lemma_mul_is_commutative(self@ as int, 2);
        }
        if bit == 0 {
            return d;
        }
        proof {
            let m = u256_modulus() as int;
            lemma_mod_mul_equivalent_even(self@ as int, m);
        }
        let r = d.double_plus_one_adjust();
        proof {
            let m = u256_modulus() as int;
            lemma_add_mod_noop(2 * (self@ as int), 1, m);
            lemma_small_mod(1, m as nat);
            lemma_small_mod(r@, m as nat);
        }
        r
    }
}

/// `(2x) mod 2^256` is even and at most 2^256 - 2.
pub proof fn lemma_mod_mul_equivalent_even(x: int, m: int)
    requires
        x >= 0,
        m == u256_modulus(),
    ensures
        ((2 * x) % m) % 2 == 0,
        (2 * x) % m + 1 < m,
{
    let y = (2 * x) % m;
    lemma_fundamental_div_mod(2 * x, m);
    lemma_mod_pos_bound(2 * x, m);
    let q = (2 * x) / m;
    assert(y == 2 * (x - q * (m / 2))) by (nonlinear_arith)
        requires
            2 * x == m * q + y,
            m == 2 * (m / 2),
    ;
    lemma_mod_multiples_basic(x - q * (m / 2), 2);
    lemma_mul_is_commutative(x - q * (m / 2), 2);
}

/// Wrapping addition and subtraction undo each other: `(a + b) - b == a`.
pub proof fn lemma_add_sub_roundtrip(a: U256, b: U256)
    ensures
        (((a@ + b@) % u256_modulus()) as int - b@) % (u256_modulus() as int) == a@,
{
    let m = u256_modulus() as int;
    lemma_value_bound(a.0);
    lemma_value_bound(b.0);
    let s: int = a@ as int + b@ as int;
    if s < m {
        lemma_small_mod(s as nat, m as nat);
        lemma_small_mod(a@, m as nat);
    } else {
        lemma_mod_add_multiples_vanish(s - m, m);
        lemma_small_mod((s - m) as nat, m as nat);
        assert(s % m == s - m);
        lemma_mod_add_multiples_vanish(a@ as int - m, m);
        lemma_small_mod(a@, m as nat);
    }
}

/// Shifting left and back right gives the value back when no bit is lost.
pub proof fn lemma_shl_shr_roundtrip(a: U256, shift: nat)
    requires
        a@ * pow2(shift) < u256_modulus(),
    ensures
        ((a@ * pow2(shift)) % u256_modulus()) / pow2(shift) == a@,
{
    lemma_small_mod(a@ * pow2(shift), u256_modulus());
    lemma_pow2_pos(shift);
    lemma_div_multiples_vanish(a@ as int, pow2(shift) as int);
    lemma_mul_is_commutative(a@ as int, pow2(shift) as int);
}

/// A `u128` comes back unchanged from a round trip through `U256`.
pub proof fn lemma_u128_roundtrip(v: u128, a: U256)
    requires
        a@ == v,
    ensures
        a@ < 0x1_0000_0000_0000_0000_0000_0000_0000_0000nat,
        a@ as u128 == v,
{
}

/// Shifting left by `s` and back right by `s` gives the value back when it
/// fits in `256 - s` bits (what `shl` and then `shr` compute).
pub proof fn lemma_shl_shr_round_trip(x: nat, s: nat)
    requires
        s <= 256,
        x < pow2((256 - s) as nat),
    ensures
        ((x * pow2(s)) % u256_modulus()) / pow2(s) == x,
{
    lemma_pow2_limb_values();
    vstd::arithmetic::power2::lemma_pow2_pos(s);
    vstd::arithmetic::power2::lemma_pow2_adds((256 - s) as nat, s);
    vstd::arithmetic::mul::lemma_mul_strict_inequality(x as int, pow2((256 - s) as nat) as int, pow2(s) as int);
    vstd::arithmetic::div_mod::lemma_small_mod(x * pow2(s), u256_modulus());
    vstd::arithmetic::div_mod::lemma_div_multiples_vanish(x as int, pow2(s) as int);
    vstd::arithmetic::mul::lemma_mul_is_commutative(x as int, pow2(s) as int);
}

} // verus!
