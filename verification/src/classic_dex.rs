//! Stellar Classic DEX pieces: path quotes, Horizon amounts, and the rough
//! price impact of the order books.

use vstd::prelude::*;
use vstd::string::StringSliceAdditionalSpecFns;

verus! {

/// Stellar Classic asset as returned by Horizon `/paths/*`.
#[derive(Debug, Clone, PartialEq, Eq)]
pub enum ClassicHorizonAsset {
    Native,
    Credit { code: String, issuer: String },
}

/// Horizon strict-send quote including intermediate path assets (for
/// PathPayment ops).
#[derive(Debug, Clone)]
pub struct ClassicPathQuote {
    pub amount_out: u128,
    pub path: Vec<ClassicHorizonAsset>,
}

/// Order-of-magnitude book depth assumed for the impact estimate (stroops).
pub const ESTIMATED_RESERVE_STROOPS: u128 = 5_000_000_000_000;

/// Price impact in bps of selling `amount_in` into books of
/// `ESTIMATED_RESERVE_STROOPS` depth, capped at 100%.
pub open spec fn classic_impact_value(amount_in: u128) -> int {
    if amount_in == 0 {
        0
    } else {
        let scaled: int = if amount_in * 10_000 > u128::MAX {
            u128::MAX as int
        } else {
            amount_in * 10_000
        };
        let raw = scaled / (2 * ESTIMATED_RESERVE_STROOPS as int);
        if raw < 10_000 {
            raw
        } else {
            10_000
        }
    }
}

pub fn estimate_classic_impact_bps(amount_in: u128) -> (r: u32)
    ensures
        r == classic_impact_value(amount_in),
{
    if amount_in == 0 {
        return 0;
    }
    let scaled = match amount_in.checked_mul(10_000) {
        Some(v) => v,
        None => u128::MAX,
    };
    let raw = scaled / (2 * ESTIMATED_RESERVE_STROOPS);
    if raw < 10_000 {
        raw as u32
    } else {
        10_000
    }
}

/// The bytes before the first `.` (all of them without one).
pub open spec fn whole_part(s: Seq<u8>) -> Seq<u8>
    decreases s.len(),
{
    if s.len() == 0 {
        s
    } else if s[0] == 46 {
        seq![]
    } else {
        seq![s[0]] + whole_part(s.drop_first())
    }
}

/// The bytes between the first and the second `.`, when there is a first.
pub open spec fn fraction_part(s: Seq<u8>) -> Option<Seq<u8>>
    decreases s.len(),
{
    if s.len() == 0 {
        None
    } else if s[0] == 46 {
        Some(whole_part(s.drop_first()))
    } else {
        fraction_part(s.drop_first())
    }
}

/// The value of ASCII decimal digits.
pub open spec fn byte_digits_value(d: Seq<u8>) -> nat
    decreases d.len(),
{
    if d.len() == 0 {
        0
    } else {
        byte_digits_value(d.drop_last()) * 10 + (d.last() - 48) as nat
    }
}

/// The digits of an unsigned number: without its optional leading `+`.
pub open spec fn unsigned_digits(b: Seq<u8>) -> Seq<u8> {
    if b.len() > 0 && b[0] == 43 {
        b.drop_first()
    } else {
        b
    }
}

/// Every byte is an ASCII digit.
pub open spec fn all_ascii_digits(d: Seq<u8>) -> bool {
    forall|i: int| 0 <= i < d.len() ==> 48 <= #[trigger] d[i] <= 57
}

/// What `str::parse::<u128>` makes of the bytes: an optional `+`, then one
/// or more ASCII digits whose value fits.
pub open spec fn parse_u128_bytes(b: Seq<u8>) -> Option<u128> {
    let digits = unsigned_digits(b);
    if digits.len() == 0 || !all_ascii_digits(digits) || byte_digits_value(digits) > u128::MAX {
        None
    } else {
        Some(byte_digits_value(digits) as u128)
    }
}

/// A run of `n` ASCII zeros.
pub open spec fn zeros(n: nat) -> Seq<u8> {
    Seq::new(n, |i: int| 48u8)
}

/// The fraction digits kept: at most seven bytes, padded with zeros to seven.
pub open spec fn padded_fraction(f: Seq<u8>) -> Seq<u8> {
    let cut = if f.len() > 7 {
        f.take(7)
    } else {
        f
    };
    cut + zeros((7 - cut.len()) as nat)
}

/// The whole part (0 when unreadable) times 10^7, plus the first seven
/// fraction digits padded with zeros (0 when unreadable).
pub open spec fn stellar_amount_value(s: Seq<u8>) -> int {
    let whole = match parse_u128_bytes(whole_part(s)) {
        Some(v) => v as int,
        None => 0,
    };
    let frac = match fraction_part(s) {
        Some(f) => match parse_u128_bytes(padded_fraction(f)) {
            Some(v) => v as int,
            None => 0,
        },
        None => 0,
    };
    whole * 10_000_000 + frac
}

/// The amount fits in `u128`, and the fraction is not cut inside a
/// multi-byte character.
pub open spec fn stellar_amount_safe(s: Seq<u8>) -> bool {
    &&& stellar_amount_value(s) <= u128::MAX
    &&& fraction_part(s) matches Some(f) ==> !(f.len() > 7 && 0x80 <= f[7] <= 0xbf)
}

/// The ASCII decimal value of some bytes, as `str::parse::<u128>` reads it.
fn parse_u128_of(b: &[u8]) -> (r: Option<u128>)
    ensures
        r == parse_u128_bytes(b@),
{
    let start: usize = if b.len() > 0 && b[0] == 43 {
        1
    } else {
        0
    };
    let ghost digits = unsigned_digits(b@);
    proof {
        assert(digits =~= b@.skip(start as int));
    }
    if start == b.len() {
        proof {
            assert(digits.len() == 0);
        }
        return None;
    }
    let mut i = start;
    let mut value: Option<u128> = Some(0);
    while i < b.len()
        invariant
            start <= i <= b@.len(),
            digits == unsigned_digits(b@),
            digits == b@.skip(start as int),
            forall|j: int| start <= j < i ==> 48 <= #[trigger] b@[j] <= 57,
            value matches Some(v) ==> v == byte_digits_value(b@.subrange(start as int, i as int)),
            value is None ==> byte_digits_value(b@.subrange(start as int, i as int)) > u128::MAX,
        decreases b.len() - i,
    {
        let c = b[i];
        if c < 48 || c > 57 {
            proof {
                assert(digits[i - start] == c);
                assert(!all_ascii_digits(digits));
            }
            return None;
        }
        proof {
            assert(b@.subrange(start as int, i + 1).drop_last() =~= b@.subrange(start as int, i as int));
        }
        let d = (c - 48) as u128;
        value = match value {
            Some(v) => match v.checked_mul(10) {
                Some(t) => t.checked_add(d),
                None => None,
            },
            None => None,
        };
        i = i + 1;
    }
    proof {
        assert(b@.subrange(start as int, i as int) =~= digits);
        assert(all_ascii_digits(digits)) by {
            assert forall|j: int| 0 <= j < digits.len() implies 48 <= #[trigger] digits[j] <= 57 by {
                assert(digits[j] == b@[start + j]);
            }
        }
    }
    value
}

/// Parse a Horizon amount (`"15.1355107"`) into stroops: the whole part
/// times 10^7 plus up to seven fraction digits; an unreadable part counts
/// as 0. It is never `None`.
pub fn parse_stellar_amount(s: &str) -> (r: Option<u128>)
    requires
        stellar_amount_safe(s.spec_bytes()),
    ensures
        r == Some(stellar_amount_value(s.spec_bytes()) as u128),
{
    let b = s.as_bytes();
    let dot = first_dot(b, 0);
    proof {
        lemma_parts_at(b@, dot as int);
    }
    let whole = match parse_u128_of(vstd::slice::slice_subrange(b, 0, dot)) {
        Some(v) => v,
        None => 0,
    };
    let frac: u128 = if dot < b.len() {
        let end = first_dot(b, dot + 1);
        proof {
            lemma_parts_at(b@.skip(dot + 1), end - dot - 1);
            assert(b@.skip(dot + 1).take(end - dot - 1) =~= b@.subrange(dot + 1, end as int));
        }
        let mut padded: Vec<u8> = Vec::new();
        let mut i = dot + 1;
        while i < end && i - (dot + 1) < 7
            invariant
                dot + 1 <= i <= end <= b@.len(),
                i - (dot + 1) <= 7,
                padded@ == b@.subrange(dot + 1, i as int),
            decreases end - i,
        {
            padded.push(b[i]);
            proof {
                assert(b@.subrange(dot + 1, i + 1) =~= b@.subrange(dot + 1, i as int).push(b@[i as int]));
            }
            i = i + 1;
        }
        let ghost cut = b@.subrange(dot + 1, i as int);
        proof {
            assert(padded@ =~= cut + zeros(0));
        }
        while padded.len() < 7
            invariant
                cut.len() <= padded@.len() <= 7,
                padded@ == cut + zeros((padded@.len() - cut.len()) as nat),
            decreases 7 - padded.len(),
        {
            let ghost before = padded@;
            padded.push(48);
            proof {
                assert(padded@ =~= cut + zeros((padded@.len() - cut.len()) as nat));
            }
        }
        proof {
            let f = b@.subrange(dot + 1, end as int);
            let c2 = if f.len() > 7 {
                f.take(7)
            } else {
                f
            };
            assert(c2 =~= cut);
            assert(padded@ =~= padded_fraction(f));
        }
        match parse_u128_of(padded.as_slice()) {
            Some(v) => v,
            None => 0,
        }
    } else {
        0
    };
    proof {
        assert(b@.take(dot as int) =~= b@.subrange(0, dot as int));
    }
    Some(whole * 10_000_000 + frac)
}

/// The first `.` at or after `from`, or the length.
fn first_dot(b: &[u8], from: usize) -> (r: usize)
    requires
        from <= b@.len(),
    ensures
        from <= r <= b@.len(),
        r < b@.len() ==> b@[r as int] == 46,
        forall|j: int| from <= j < r ==> b@[j] != 46,
{
    let mut i = from;
    while i < b.len() && b[i] != 46
        invariant
            from <= i <= b@.len(),
            forall|j: int| from <= j < i ==> b@[j] != 46,
        decreases b.len() - i,
    {
        i = i + 1;
    }
    i
}

/// Split at the first `.`, found at `dot` (or at the end).
proof fn lemma_parts_at(s: Seq<u8>, dot: int)
    requires
        0 <= dot <= s.len(),
        dot < s.len() ==> s[dot] == 46,
        forall|j: int| 0 <= j < dot ==> s[j] != 46,
    ensures
        whole_part(s) == s.take(dot),
        fraction_part(s) == (if dot < s.len() {
            Some(whole_part(s.skip(dot + 1)))
        } else {
            None::<Seq<u8>>
        }),
    decreases dot,
{
    if dot > 0 {
        lemma_parts_at(s.drop_first(), dot - 1);
        assert(s.drop_first().take(dot - 1) =~= s.take(dot).drop_first());
        assert(s.take(dot) =~= seq![s[0]] + s.take(dot).drop_first());
        if dot < s.len() {
            assert(s.drop_first().skip(dot) =~= s.skip(dot + 1));
        }
    } else if s.len() > 0 {
        assert(s.drop_first() =~= s.skip(1));
    }
}

} // verus!
