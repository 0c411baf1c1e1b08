//! Configuration of the arbitrage scanner, read from environment variables:
//! the lookups, the number and flag parsing, the comma-separated lists and
//! the defaults.

use vstd::prelude::*;
use vstd::string::StrSliceExecFns;

use crate::economics::{USDC_SAC, XLM_SAC};
use crate::text::{
    ascii_lowercase, chars_eq, chars_of, digits_value, is_ascii_digit, is_white_space, str_eq, to_ascii_lower,
    trim_text,
};

verus! {

/// The value of the first variable named `key`.
pub open spec fn env_lookup(vars: Seq<(String, String)>, key: Seq<char>) -> Option<Seq<char>>
    decreases vars.len(),
{
    if vars.len() == 0 {
        None
    } else if vars[0].0@ == key {
        Some(vars[0].1@)
    } else {
        env_lookup(vars.skip(1), key)
    }
}

/// The value of the variable named `key`, if it is set.
pub fn env_var<'a>(vars: &'a [(String, String)], key: &str) -> (r: Option<&'a str>)
    ensures
        match r {
            Some(v) => env_lookup(vars@, key@) == Some(v@),
            None => env_lookup(vars@, key@) is None,
        },
{
    let mut i: usize = 0;
    assert(vars@.skip(0) =~= vars@);
    while i < vars.len()
        invariant
            i <= vars@.len(),
            env_lookup(vars@.skip(i as int), key@) == env_lookup(vars@, key@),
        decreases vars.len() - i,
    {
        proof {
            assert(vars@.skip(i as int).skip(1) =~= vars@.skip(i + 1));
            assert(vars@.skip(i as int)[0] == vars@[i as int]);
        }
        if str_eq(vars[i].0.as_str(), key) {
            return Some(vars[i].1.as_str());
        }
        i = i + 1;
    }
    None
}

/// The digits of an unsigned number: the text without a leading `+`.
pub open spec fn unsigned_digits(s: Seq<char>) -> Seq<char> {
    if s.len() > 0 && s[0] == '+' {
        s.drop_first()
    } else {
        s
    }
}

/// Every character is an ASCII digit.
pub open spec fn all_digits(d: Seq<char>) -> bool {
    forall|i: int| 0 <= i < d.len() ==> is_ascii_digit(#[trigger] d[i])
}

/// What `str::parse` makes of an unsigned number no larger than `max`: an
/// optional `+`, then one or more ASCII digits.
pub open spec fn parse_unsigned(s: Seq<char>, max: nat) -> Option<nat> {
    let d = unsigned_digits(s);
    if d.len() == 0 || !all_digits(d) {
        None
    } else if digits_value(d) > max {
        None
    } else {
        Some(digits_value(d))
    }
}

/// Parse an unsigned number no larger than `max`, as `str::parse` does.
pub fn parse_number(s: &str, max: u128) -> (r: Option<u128>)
    ensures
        match r {
            Some(v) => parse_unsigned(s@, max as nat) == Some(v as nat),
            None => parse_unsigned(s@, max as nat) is None,
        },
{
    let c = chars_of(s);
    let start: usize = if c.len() > 0 && c[0] == '+' {
        1
    } else {
        0
    };
    let ghost d = unsigned_digits(s@);
    proof {
        assert(d =~= c@.skip(start as int));
    }
    if start == c.len() {
        return None;
    }
    let mut value: u128 = 0;
    let mut i: usize = start;
    while i < c.len()
        invariant
            start <= i <= c@.len(),
            c@ == s@,
            d == c@.skip(start as int),
            d == unsigned_digits(s@),
            forall|j: int| start <= j < i ==> is_ascii_digit(#[trigger] c@[j]),
            value == digits_value(c@.subrange(start as int, i as int)),
            value <= max,
        decreases c.len() - i,
    {
        let ch = c[i];
        proof {
            assert(c@.subrange(start as int, i + 1).drop_last() =~= c@.subrange(start as int, i as int));
        }
        if !('0' <= ch && ch <= '9') {
            proof {
                let k: int = i - start;
                assert(0 <= k < d.len() && d[k] == ch && !is_ascii_digit(d[k]));
                assert(!all_digits(d));
            }
            return None;
        }
        let digit = (ch as u32 - 48) as u128;
        let next = match value.checked_mul(10) {
            Some(t) => t.checked_add(digit),
            None => None,
        };
        let over = match next {
            Some(n) => n > max,
            None => true,
        };
        proof {
            assert(d.take((i + 1 - start) as int) =~= c@.subrange(start as int, i + 1));
            assert(c@.subrange(start as int, i + 1).drop_last() =~= c@.subrange(start as int, i as int));
        }
        proof {
            let sub = c@.subrange(start as int, i + 1);
            assert(sub.last() == ch);
            assert(digits_value(sub) == value * 10 + digit);
        }
        if over {
            proof {
                assert(digits_value(c@.subrange(start as int, i + 1)) > max);
                if all_digits(d) {
                    lemma_digits_grow(d, (i + 1 - start) as nat, d.len());
                    assert(d.take(d.len() as int) =~= d);
                }
            }
            return None;
        }
        value = match next {
            Some(n) => n,
            None => 0,
        };
        i = i + 1;
    }
    proof {
        assert(c@.subrange(start as int, i as int) =~= d);
    }
    Some(value)
}

/// A longer string of digits is worth at least as much as its prefix.
proof fn lemma_digits_grow(d: Seq<char>, a: nat, b: nat)
    requires
        a <= b <= d.len(),
    ensures
        digits_value(d.take(b as int)) >= digits_value(d.take(a as int)),
    decreases b - a,
{
    if a < b {
        lemma_digits_grow(d, a, (b - 1) as nat);
        assert(d.take(b as int).drop_last() =~= d.take(b - 1));
    }
}

/// The pieces of a text split at each `,` (one more than there are commas).
pub open spec fn comma_pieces(s: Seq<char>) -> Seq<Seq<char>>
    decreases s.len(),
{
    if s.len() == 0 {
        seq![Seq::empty()]
    } else {
        let p = comma_pieces(s.drop_last());
        if s.last() == ',' {
            p.push(Seq::empty())
        } else {
            p.update(p.len() - 1, p.last().push(s.last()))
        }
    }
}

proof fn lemma_comma_pieces_len(s: Seq<char>)
    ensures
        comma_pieces(s).len() >= 1,
    decreases s.len(),
{
    if s.len() > 0 {
        lemma_comma_pieces_len(s.drop_last());
    }
}

/// The pieces trimmed, the empty ones left out.
pub open spec fn kept_pieces(p: Seq<Seq<char>>) -> Seq<Seq<char>>
    decreases p.len(),
{
    if p.len() == 0 {
        Seq::empty()
    } else {
        let r = kept_pieces(p.drop_last());
        let t = trim_text(p.last());
        if t.len() > 0 {
            r.push(t)
        } else {
            r
        }
    }
}

/// The comma-separated items of a text: trimmed, without empty ones.
pub open spec fn comma_list(s: Seq<char>) -> Seq<Seq<char>> {
    kept_pieces(comma_pieces(s))
}

/// `b` holds the bounds of the first `b.len()` pieces of `c`.
pub open spec fn bounds_match(c: Seq<char>, b: Seq<(usize, usize)>, pieces: Seq<Seq<char>>) -> bool {
    &&& b.len() <= pieces.len()
    &&& forall|k: int|
        0 <= k < b.len() ==> {
            &&& (#[trigger] b[k]).0 <= b[k].1 <= c.len()
            &&& c.subrange(b[k].0 as int, b[k].1 as int) == pieces[k]
        }
}

/// Where each comma-separated piece of `c` begins and ends.
fn piece_bounds(c: &Vec<char>) -> (r: Vec<(usize, usize)>)
    ensures
        r@.len() == comma_pieces(c@).len(),
        bounds_match(c@, r@, comma_pieces(c@)),
{
    let mut out: Vec<(usize, usize)> = Vec::new();
    let mut start: usize = 0;
    let mut i: usize = 0;
    proof {
        assert(c@.take(0) =~= Seq::<char>::empty());
    }
    while i < c.len()
        invariant
            start <= i <= c@.len(),
            comma_pieces(c@.take(i as int)).len() == out@.len() + 1,
            bounds_match(c@, out@, comma_pieces(c@.take(i as int))),
            comma_pieces(c@.take(i as int)).last() == c@.subrange(start as int, i as int),
        decreases c.len() - i,
    {
        let ghost before = comma_pieces(c@.take(i as int));
        let ghost old_out = out@;
        let ghost old_start = start;
        proof {
            lemma_comma_pieces_len(c@.take(i as int));
            assert(c@.take(i + 1).drop_last() =~= c@.take(i as int));
            assert(c@.take(i + 1).last() == c@[i as int]);
        }
        if c[i] == ',' {
            out.push((start, i));
            start = i + 1;
            proof {
                let after = comma_pieces(c@.take(i + 1));
                assert(after == before.push(Seq::empty()));
                assert(c@.subrange(start as int, i + 1) =~= Seq::<char>::empty());
                assert forall|k: int| 0 <= k < out@.len() implies {
                    &&& (#[trigger] out@[k]).0 <= out@[k].1 <= c@.len()
                    &&& c@.subrange(out@[k].0 as int, out@[k].1 as int) == after[k]
                } by {
                    assert(after[k] == before[k]);
                    if k < old_out.len() {
                        assert(out@[k] == old_out[k]);
                    } else {
                        assert(out@[k] == (old_start, i));
                    }
                }
                assert(bounds_match(c@, out@, after));
            }
        } else {
            proof {
                let after = comma_pieces(c@.take(i + 1));
                assert(after == before.update(before.len() - 1, before.last().push(c@[i as int])));
                assert(c@.subrange(start as int, i + 1) =~= c@.subrange(start as int, i as int).push(c@[i as int]));
                assert forall|k: int| 0 <= k < out@.len() implies {
                    &&& (#[trigger] out@[k]).0 <= out@[k].1 <= c@.len()
                    &&& c@.subrange(out@[k].0 as int, out@[k].1 as int) == after[k]
                } by {
                    assert(after[k] == before[k]);
                }
                assert(bounds_match(c@, out@, after));
            }
        }
        i = i + 1;
    }
    proof {
        lemma_comma_pieces_len(c@);
        assert(c@.take(i as int) =~= c@);
    }
    let ghost prev = out@;
    out.push((start, i));
    proof {
        let pieces = comma_pieces(c@);
        assert forall|k: int| 0 <= k < out@.len() implies {
            &&& (#[trigger] out@[k]).0 <= out@[k].1 <= c@.len()
            &&& c@.subrange(out@[k].0 as int, out@[k].1 as int) == pieces[k]
        } by {
            if k < prev.len() {
                assert(out@[k] == prev[k]);
            }
        }
    }
    out
}

/// The bounds of `c[lo..hi]` with surrounding white space left out.
fn trimmed_bounds(c: &Vec<char>, lo: usize, hi: usize) -> (r: (usize, usize))
    requires
        lo <= hi <= c@.len(),
    ensures
        lo <= r.0 <= r.1 <= hi,
        c@.subrange(r.0 as int, r.1 as int) == trim_text(c@.subrange(lo as int, hi as int)),
{
    let ghost s = c@.subrange(lo as int, hi as int);
    let mut a = lo;
    proof {
        assert(s.skip(0) =~= s);
    }
    while a < hi && crate::text::white_space_char(c[a])
        invariant
            lo <= a <= hi <= c@.len(),
            s == c@.subrange(lo as int, hi as int),
            crate::text::trim_start_text(s) == crate::text::trim_start_text(c@.subrange(a as int, hi as int)),
        decreases hi - a,
    {
        proof {
            assert(c@.subrange(a as int, hi as int).drop_first() =~= c@.subrange(a + 1, hi as int));
        }
        a = a + 1;
    }
    proof {
        assert(c@.subrange(a as int, hi as int).len() == 0 || !is_white_space(c@.subrange(a as int, hi as int)[0]));
    }
    let ghost start = c@.subrange(a as int, hi as int);
    let mut b = hi;
    while b > a && crate::text::white_space_char(c[b - 1])
        invariant
            lo <= a <= b <= hi <= c@.len(),
            crate::text::trim_end_text(start) == crate::text::trim_end_text(c@.subrange(a as int, b as int)),
        decreases b,
    {
        proof {
            assert(c@.subrange(a as int, b as int).drop_last() =~= c@.subrange(a as int, b - 1));
        }
        b = b - 1;
    }
    (a, b)
}

/// The comma-separated items of a text: trimmed, without empty ones.
pub fn split_list(raw: &str) -> (r: Vec<String>)
    ensures
        r.deep_view() == comma_list(raw@),
{
    let c = chars_of(raw);
    let bounds = piece_bounds(&c);
    let ghost pieces = comma_pieces(c@);
    let mut out: Vec<String> = Vec::new();
    let mut k: usize = 0;
    proof {
        assert(out.deep_view() =~= kept_pieces(pieces.take(0)));
    }
    while k < bounds.len()
        invariant
            c@ == raw@,
            pieces == comma_pieces(c@),
            bounds@.len() == pieces.len(),
            bounds_match(c@, bounds@, pieces),
            k <= bounds@.len(),
            out.deep_view() == kept_pieces(pieces.take(k as int)),
        decreases bounds.len() - k,
    {
        let (lo, hi) = bounds[k];
        proof {
            assert(lo <= hi <= c@.len());
        }
        let (a, b) = trimmed_bounds(&c, lo, hi);
        proof {
            assert(pieces.take(k + 1).drop_last() =~= pieces.take(k as int));
            assert(pieces.take(k + 1).last() == pieces[k as int]);
        }
        if a < b {
            let item = raw.substring_char(a, b).to_owned();
            out.push(item);
            proof {
                assert(out.deep_view() =~= kept_pieces(pieces.take(k as int)).push(trim_text(pieces[k as int])));
            }
        }
        k = k + 1;
    }
    proof {
        assert(pieces.take(k as int) =~= pieces);
    }
    out
}

/// Trailing `/` characters removed.
pub open spec fn trim_end_slashes(s: Seq<char>) -> Seq<char>
    decreases s.len(),
{
    if s.len() > 0 && s.last() == '/' {
        trim_end_slashes(s.drop_last())
    } else {
        s
    }
}

/// The URLs of a comma-separated list: the non-empty trimmed items, each
/// without trailing slashes.
pub open spec fn url_list(s: Seq<char>) -> Seq<Seq<char>> {
    comma_list(s).map_values(|u: Seq<char>| trim_end_slashes(u))
}

/// The URLs of a comma-separated list.
pub fn parse_url_list(raw: &str) -> (r: Vec<String>)
    ensures
        r.deep_view() == url_list(raw@),
{
    let c = chars_of(raw);
    let bounds = piece_bounds(&c);
    let ghost pieces = comma_pieces(c@);
    let ghost kept = kept_pieces(pieces);
    let mut out: Vec<String> = Vec::new();
    let mut k: usize = 0;
    proof {
        assert(out.deep_view() =~= kept_pieces(pieces.take(0)).map_values(|u: Seq<char>| trim_end_slashes(u)));
    }
    while k < bounds.len()
        invariant
            c@ == raw@,
            pieces == comma_pieces(c@),
            bounds@.len() == pieces.len(),
            bounds_match(c@, bounds@, pieces),
            k <= bounds@.len(),
            out.deep_view() == kept_pieces(pieces.take(k as int)).map_values(|u: Seq<char>| trim_end_slashes(u)),
        decreases bounds.len() - k,
    {
        let (lo, hi) = bounds[k];
        proof {
            assert(lo <= hi <= c@.len());
        }
        let (a, b) = trimmed_bounds(&c, lo, hi);
        proof {
            assert(pieces.take(k + 1).drop_last() =~= pieces.take(k as int));
            assert(pieces.take(k + 1).last() == pieces[k as int]);
        }
        if a < b {
            let mut e = b;
            while e > a && c[e - 1] == '/'
                invariant
                    a <= e <= b <= c@.len(),
                    trim_end_slashes(c@.subrange(a as int, b as int)) == trim_end_slashes(c@.subrange(a as int, e as int)),
                decreases e,
            {
                proof {
                    assert(c@.subrange(a as int, e as int).drop_last() =~= c@.subrange(a as int, e - 1));
                }
                e = e - 1;
            }
            proof {
                assert(c@.subrange(a as int, e as int).len() == 0 || c@.subrange(a as int, e as int).last() != '/');
                assert(trim_end_slashes(c@.subrange(a as int, e as int)) == c@.subrange(a as int, e as int));
                assert(c@.subrange(lo as int, hi as int) == pieces[k as int]);
                assert(c@.subrange(a as int, b as int) == trim_text(pieces[k as int]));
            }
            let item = raw.substring_char(a, e).to_owned();
            let ghost old_dv = out.deep_view();
            out.push(item);
            proof {
                let t = trim_text(pieces[k as int]);
                let f = |u: Seq<char>| trim_end_slashes(u);
                let kp = kept_pieces(pieces.take(k as int));
                assert(out.deep_view() =~= old_dv.push(item@));
                assert(kp.push(t).map_values(f) =~= kp.map_values(f).push(f(t)));
                assert(item@ == trim_end_slashes(t));
                assert(kept_pieces(pieces.take(k + 1)) == kept_pieces(pieces.take(k as int)).push(t));
                assert(out.deep_view() =~= kept_pieces(pieces.take(k + 1)).map_values(|u: Seq<char>| trim_end_slashes(u)));
            }
        } else {
            proof {
                assert(kept_pieces(pieces.take(k + 1)) == kept_pieces(pieces.take(k as int)));
            }
        }
        k = k + 1;
    }
    proof {
        assert(pieces.take(k as int) =~= pieces);
    }
    out
}

/// The `u32` items of a comma-separated list: each piece trimmed and
/// parsed, those that do not parse left out.
pub open spec fn parsed_u32_pieces(p: Seq<Seq<char>>) -> Seq<u32>
    decreases p.len(),
{
    if p.len() == 0 {
        Seq::empty()
    } else {
        let r = parsed_u32_pieces(p.drop_last());
        match parse_unsigned(trim_text(p.last()), u32::MAX as nat) {
            Some(v) => r.push(v as u32),
            None => r,
        }
    }
}

/// The numbers of a comma-separated list of `u32` values.
pub fn parse_u32_list(raw: &str) -> (r: Vec<u32>)
    ensures
        r@ == parsed_u32_pieces(comma_pieces(raw@)),
{
    let c = chars_of(raw);
    let bounds = piece_bounds(&c);
    let ghost pieces = comma_pieces(c@);
    let mut out: Vec<u32> = Vec::new();
    let mut k: usize = 0;
    while k < bounds.len()
        invariant
            c@ == raw@,
            pieces == comma_pieces(c@),
            bounds@.len() == pieces.len(),
            bounds_match(c@, bounds@, pieces),
            k <= bounds@.len(),
            out@ == parsed_u32_pieces(pieces.take(k as int)),
        decreases bounds.len() - k,
    {
        let (lo, hi) = bounds[k];
        proof {
            assert(lo <= hi <= c@.len());
        }
        let (a, b) = trimmed_bounds(&c, lo, hi);
        proof {
            assert(pieces.take(k + 1).drop_last() =~= pieces.take(k as int));
            assert(pieces.take(k + 1).last() == pieces[k as int]);
        }
        let piece = raw.substring_char(a, b);
        match parse_number(piece, 0xffff_ffff) {
            Some(v) => {
                out.push(v as u32);
            },
            None => {},
        }
        k = k + 1;
    }
    proof {
        assert(pieces.take(k as int) =~= pieces);
    }
    out
}

/// The variable's value, unless it is unset or empty.
pub open spec fn nonempty_value(v: Option<Seq<char>>) -> Option<Seq<char>> {
    match v {
        Some(x) => if x.len() > 0 { Some(x) } else { None },
        None => None,
    }
}

fn nonempty_string(v: Option<&str>) -> (r: Option<String>)
    ensures
        match r {
            Some(s) => nonempty_value(opt_view(v)) == Some(s@),
            None => nonempty_value(opt_view(v)) is None,
        },
{
    match v {
        Some(x) => if x.is_empty() {
            None
        } else {
            Some(x.to_owned())
        },
        None => None,
    }
}

/// The text behind an optional reference.
pub open spec fn opt_view(v: Option<&str>) -> Option<Seq<char>> {
    match v {
        Some(x) => Some(x@),
        None => None,
    }
}

/// A number read from a variable, or `default` when it is unset or does
/// not parse as a number up to `max`.
pub open spec fn number_or(v: Option<Seq<char>>, max: nat, default: nat) -> nat {
    match v {
        Some(x) => match parse_unsigned(x, max) {
            Some(n) => n,
            None => default,
        },
        None => default,
    }
}

fn number_var(vars: &[(String, String)], key: &str, max: u128, default: u128) -> (r: u128)
    requires
        default <= max,
    ensures
        r == number_or(env_lookup(vars@, key@), max as nat, default as nat),
        r <= max,
{
    match env_var(vars, key) {
        Some(v) => match parse_number(v, max) {
            Some(n) => n,
            None => default,
        },
        None => default,
    }
}

/// A flag is on when its value is `1` or `true` in any case.
pub open spec fn flag_on(v: Seq<char>) -> bool {
    v == "1"@ || ascii_lowercase(v) == "true"@
}

/// A flag read from a variable, or `default` when it is unset.
pub open spec fn flag_or(v: Option<Seq<char>>, default: bool) -> bool {
    match v {
        Some(x) => flag_on(x),
        None => default,
    }
}

fn flag_var(vars: &[(String, String)], key: &str, default: bool) -> (r: bool)
    ensures
        r == flag_or(env_lookup(vars@, key@), default),
{
    match env_var(vars, key) {
        Some(v) => {
            if str_eq(v, "1") {
                return true;
            }
            let lower = to_ascii_lower(chars_of(v).as_slice());
            let t = chars_of("true");
            chars_eq(lower.as_slice(), t.as_slice())
        },
        None => default,
    }
}

/// The quote-api URLs given by one fallback variable: its list when it
/// holds a comma and the list is not empty, else its trimmed value without
/// trailing slashes when not empty.
pub open spec fn single_url_value(raw: Seq<char>) -> Option<Seq<Seq<char>>> {
    if raw.contains(',') && url_list(raw).len() > 0 {
        Some(url_list(raw))
    } else if trim_text(raw).len() > 0 {
        Some(seq![trim_end_slashes(trim_text(raw))])
    } else {
        None
    }
}

/// The quote-api URLs: `ARB_QUOTE_API_URLS` when it lists some, else the
/// first of `ARB_QUOTE_API_URL`, `QUOTE_API_URL`, `LUMAGG_API_URL` that
/// gives some, else the four local ports.
pub open spec fn quote_urls_value(vars: Seq<(String, String)>) -> Seq<Seq<char>> {
    let listed = match env_lookup(vars, "ARB_QUOTE_API_URLS"@) {
        Some(raw) => if url_list(raw).len() > 0 { Some(url_list(raw)) } else { None },
        None => None,
    };
    let from = |key: Seq<char>| match env_lookup(vars, key) {
        Some(raw) => single_url_value(raw),
        None => None,
    };
    match listed {
        Some(u) => u,
        None => match from("ARB_QUOTE_API_URL"@) {
            Some(u) => u,
            None => match from("QUOTE_API_URL"@) {
                Some(u) => u,
                None => match from("LUMAGG_API_URL"@) {
                    Some(u) => u,
                    None => seq![
                        "http://127.0.0.1:3100"@,
                        "http://127.0.0.1:3101"@,
                        "http://127.0.0.1:3102"@,
                        "http://127.0.0.1:3103"@,
                    ],
                },
            },
        },
    }
}

fn contains_comma(s: &str) -> (r: bool)
    ensures
        r == s@.contains(','),
{
    let c = chars_of(s);
    let mut i: usize = 0;
    while i < c.len()
        invariant
            c@ == s@,
            i <= c@.len(),
            forall|j: int| 0 <= j < i ==> c@[j] != ',',
        decreases c.len() - i,
    {
        if c[i] == ',' {
            proof {
                assert(s@[i as int] == ',');
            }
            return true;
        }
        i = i + 1;
    }
    false
}

fn single_url(raw: &str) -> (r: Option<Vec<String>>)
    ensures
        match r {
            Some(u) => single_url_value(raw@) == Some(u.deep_view()),
            None => single_url_value(raw@) is None,
        },
{
    if contains_comma(raw) {
        let urls = parse_url_list(raw);
        if urls.len() > 0 {
            return Some(urls);
        }
    }
    let c = chars_of(raw);
    let (a, b) = trimmed_bounds(&c, 0, c.len());
    proof {
        assert(c@.subrange(0, c@.len() as int) =~= raw@);
    }
    if a == b {
        return None;
    }
    let mut e = b;
    while e > a && c[e - 1] == '/'
        invariant
            a <= e <= b <= c@.len(),
            trim_end_slashes(c@.subrange(a as int, b as int)) == trim_end_slashes(c@.subrange(a as int, e as int)),
        decreases e,
    {
        proof {
            assert(c@.subrange(a as int, e as int).drop_last() =~= c@.subrange(a as int, e - 1));
        }
        e = e - 1;
    }
    proof {
        assert(c@.subrange(a as int, e as int).len() == 0 || c@.subrange(a as int, e as int).last() != '/');
        assert(trim_end_slashes(c@.subrange(a as int, e as int)) == c@.subrange(a as int, e as int));
    }
    let mut out: Vec<String> = Vec::new();
    out.push(raw.substring_char(a, e).to_owned());
    proof {
        assert(out.deep_view() =~= seq![trim_end_slashes(trim_text(raw@))]);
    }
    Some(out)
}

fn fallback_urls(vars: &[(String, String)], key: &str) -> (r: Option<Vec<String>>)
    ensures
        match r {
            Some(u) => match env_lookup(vars@, key@) {
                Some(raw) => single_url_value(raw) == Some(u.deep_view()),
                None => false,
            },
            None => match env_lookup(vars@, key@) {
                Some(raw) => single_url_value(raw) is None,
                None => true,
            },
        },
{
    match env_var(vars, key) {
        Some(raw) => single_url(raw),
        None => None,
    }
}

/// The quote-api URLs configured by the variables.
pub fn quote_api_urls(vars: &[(String, String)]) -> (r: Vec<String>)
    ensures
        r.deep_view() == quote_urls_value(vars@),
{
    proof {
        reveal_strlit("http://127.0.0.1:3100");
        reveal_strlit("http://127.0.0.1:3101");
        reveal_strlit("http://127.0.0.1:3102");
        reveal_strlit("http://127.0.0.1:3103");
    }
    match env_var(vars, "ARB_QUOTE_API_URLS") {
        Some(raw) => {
            let urls = parse_url_list(raw);
            if urls.len() > 0 {
                return urls;
            }
        },
        None => {},
    }
    match fallback_urls(vars, "ARB_QUOTE_API_URL") {
        Some(u) => return u,
        None => {},
    }
    match fallback_urls(vars, "QUOTE_API_URL") {
        Some(u) => return u,
        None => {},
    }
    match fallback_urls(vars, "LUMAGG_API_URL") {
        Some(u) => return u,
        None => {},
    }
    let mut out: Vec<String> = Vec::new();
    out.push("http://127.0.0.1:3100".to_owned());
    out.push("http://127.0.0.1:3101".to_owned());
    out.push("http://127.0.0.1:3102".to_owned());
    out.push("http://127.0.0.1:3103".to_owned());
    proof {
        assert(out.deep_view() =~= seq![
            "http://127.0.0.1:3100"@,
            "http://127.0.0.1:3101"@,
            "http://127.0.0.1:3102"@,
            "http://127.0.0.1:3103"@,
        ]);
    }
    out
}

/// RPC endpoint used when `RPC_URL` is unset.
pub const DEFAULT_RPC_URL: &'static str = "https://soroban-rpc.mainnet.stellar.gateway.fm";

/// Scanner configuration. Tokens are kept as the identifiers written in
/// the variables.
#[derive(Debug, Clone)]
pub struct ArbConfig {
    pub quote_api_urls: Vec<String>,
    pub aggregator_contract: Option<String>,
    pub vault_contract: Option<String>,
    pub caller_secrets: Vec<String>,
    pub caller_secrets_file: Option<String>,
    pub mnemonic_path: Option<String>,
    pub caller_indices: Vec<u32>,
    pub rpc_url: String,
    pub base_tokens: Vec<String>,
    pub bridge_tokens: Vec<String>,
    pub probe_amount_in: u128,
    pub min_profit: u128,
    pub slippage_bps: u32,
    pub max_hops: usize,
    pub max_splits: usize,
    pub scan_interval_ms: u64,
    pub item_gap_ms: u64,
    pub worker_count: usize,
    pub build_tx: bool,
    pub optimize_amount: bool,
    pub min_amount_in: u128,
    pub max_amount_in: u128,
    pub sample_count: usize,
    pub submit_tx: bool,
    pub dry_run: bool,
    pub poll_tx: bool,
    pub submit_dedup_secs: u64,
}

/// Why the variables give no configuration.
#[derive(Debug, Clone, Copy, PartialEq, Eq, Structural)]
pub enum ConfigError {
    /// `ARB_BRIDGE_TOKENS` is unset or lists no token.
    MissingBridgeTokens,
}

/// The value of an optional text, or none.
pub open spec fn opt_string_view(v: Option<String>) -> Option<Seq<char>> {
    match v {
        Some(x) => Some(x@),
        None => None,
    }
}

/// The bridge tokens: the items of `ARB_BRIDGE_TOKENS`, when it lists some.
pub open spec fn bridge_tokens_value(vars: Seq<(String, String)>) -> Option<Seq<Seq<char>>> {
    match env_lookup(vars, "ARB_BRIDGE_TOKENS"@) {
        Some(raw) => if comma_list(raw).len() > 0 { Some(comma_list(raw)) } else { None },
        None => None,
    }
}

/// The scan interval: `ARB_SCAN_INTERVAL_MS`, else `ARB_SCAN_INTERVAL_SECS`
/// in milliseconds (saturating), else 500.
pub open spec fn scan_interval_value(vars: Seq<(String, String)>) -> nat {
    let ms = match env_lookup(vars, "ARB_SCAN_INTERVAL_MS"@) {
        Some(v) => parse_unsigned(v, u64::MAX as nat),
        None => None,
    };
    let secs = match env_lookup(vars, "ARB_SCAN_INTERVAL_SECS"@) {
        Some(v) => parse_unsigned(v, u64::MAX as nat),
        None => None,
    };
    match ms {
        Some(m) => m,
        None => match secs {
            Some(s) => if s * 1000 > u64::MAX { u64::MAX as nat } else { s * 1000 },
            None => 500,
        },
    }
}

/// Every field as the variables give it.
pub open spec fn config_matches(c: ArbConfig, vars: Seq<(String, String)>) -> bool {
    let var = |key: Seq<char>| env_lookup(vars, key);
    let probe = number_or(var("ARB_PROBE_AMOUNT_IN"@), u128::MAX as nat, 100_000_000);
    let submit = flag_or(var("ARB_SUBMIT_TX"@), false);
    let workers = number_or(var("ARB_WORKER_COUNT"@), usize::MAX as nat, 4);
    &&& c.quote_api_urls.deep_view() == quote_urls_value(vars)
    &&& opt_string_view(c.aggregator_contract) == match var("ARB_AGGREGATOR_CONTRACT"@) {
        Some(v) => nonempty_value(Some(v)),
        None => nonempty_value(var("AGGREGATOR_CONTRACT"@)),
    }
    &&& opt_string_view(c.vault_contract) == nonempty_value(var("ARB_VAULT_CONTRACT"@))
    &&& c.caller_secrets.deep_view() == match var("ARB_CALLER_SECRETS"@) {
        Some(raw) => comma_list(raw),
        None => Seq::empty(),
    }
    &&& opt_string_view(c.caller_secrets_file) == nonempty_value(var("ARB_CALLER_SECRETS_FILE"@))
    &&& opt_string_view(c.mnemonic_path) == nonempty_value(var("ARB_MNEMONIC_PATH"@))
    &&& c.caller_indices@ == match var("ARB_CALLER_INDICES"@) {
        Some(raw) => parsed_u32_pieces(comma_pieces(raw)),
        None => seq![0u32],
    }
    &&& c.rpc_url@ == match var("RPC_URL"@) {
        Some(v) => v,
        None => DEFAULT_RPC_URL@,
    }
    &&& c.base_tokens.deep_view() == match var("ARB_BASE_TOKENS"@) {
        Some(raw) => comma_list(raw),
        None => seq![XLM_SAC@, USDC_SAC@],
    }
    &&& bridge_tokens_value(vars) == Some(c.bridge_tokens.deep_view())
    &&& c.probe_amount_in == probe
    &&& c.min_profit == number_or(var("ARB_MIN_PROFIT"@), u128::MAX as nat, 120_000)
    &&& c.slippage_bps == number_or(var("ARB_SLIPPAGE_BPS"@), u32::MAX as nat, 0)
    &&& c.max_hops == number_or(var("ARB_MAX_HOPS"@), usize::MAX as nat, 2)
    &&& c.max_splits == number_or(var("ARB_MAX_SPLITS"@), usize::MAX as nat, 1)
    &&& c.scan_interval_ms == scan_interval_value(vars)
    &&& c.item_gap_ms == number_or(var("ARB_ITEM_GAP_MS"@), u64::MAX as nat, 10)
    &&& c.worker_count == (if workers >= 1 { workers } else { 1 })
    &&& c.build_tx == flag_or(var("ARB_BUILD_TX"@), false)
    &&& c.optimize_amount == flag_or(var("ARB_OPTIMIZE_AMOUNT"@), true)
    &&& c.min_amount_in == number_or(var("ARB_MIN_AMOUNT_IN"@), u128::MAX as nat, probe)
    &&& c.max_amount_in == number_or(var("ARB_MAX_AMOUNT_IN"@), u128::MAX as nat, 18_000_000_000)
    &&& c.sample_count == number_or(var("ARB_SAMPLE_COUNT"@), usize::MAX as nat, 8)
    &&& c.submit_tx == submit
    &&& c.dry_run == flag_or(var("ARB_DRY_RUN"@), !submit)
    &&& c.poll_tx == flag_or(var("ARB_POLL_TX"@), false)
    &&& c.submit_dedup_secs == number_or(var("ARB_SUBMIT_DEDUP_SECS"@), u64::MAX as nat, 6)
}

fn token_list(vars: &[(String, String)], key: &str) -> (r: Option<Vec<String>>)
    ensures
        match r {
            Some(t) => match env_lookup(vars@, key@) {
                Some(raw) => t.deep_view() == comma_list(raw),
                None => false,
            },
            None => env_lookup(vars@, key@) is None,
        },
{
    match env_var(vars, key) {
        Some(raw) => Some(split_list(raw)),
        None => None,
    }
}

fn scan_interval(vars: &[(String, String)]) -> (r: u64)
    ensures
        r == scan_interval_value(vars@),
{
    let ms = match env_var(vars, "ARB_SCAN_INTERVAL_MS") {
        Some(v) => parse_number(v, 0xffff_ffff_ffff_ffff),
        None => None,
    };
    match ms {
        Some(m) => m as u64,
        None => {
            let secs = match env_var(vars, "ARB_SCAN_INTERVAL_SECS") {
                Some(v) => parse_number(v, 0xffff_ffff_ffff_ffff),
                None => None,
            };
            match secs {
                Some(s) => match (s as u64).checked_mul(1000) {
                    Some(v) => v,
                    None => u64::MAX,
                },
                None => 500,
            }
        },
    }
}

impl ArbConfig {
    /// The configuration that environment variables (name, value) give:
    /// refused only when `ARB_BRIDGE_TOKENS` lists no token.
    pub fn from_vars(vars: &[(String, String)]) -> (r: Result<ArbConfig, ConfigError>)
        ensures
            match r {
                Ok(c) => config_matches(c, vars@),
                Err(e) => e == ConfigError::MissingBridgeTokens && bridge_tokens_value(vars@) is None,
            },
    {
        proof {
            reveal_strlit("ARB_QUOTE_API_URLS");
        }
        let quote_api_urls = quote_api_urls(vars);
        let aggregator_contract = match env_var(vars, "ARB_AGGREGATOR_CONTRACT") {
            Some(v) => nonempty_string(Some(v)),
            None => nonempty_string(env_var(vars, "AGGREGATOR_CONTRACT")),
        };
        let vault_contract = nonempty_string(env_var(vars, "ARB_VAULT_CONTRACT"));
        let caller_secrets = match env_var(vars, "ARB_CALLER_SECRETS") {
            Some(raw) => split_list(raw),
            None => {
                let v: Vec<String> = Vec::new();
                proof {
                    assert(v.deep_view() =~= Seq::<Seq<char>>::empty());
                }
                v
            },
        };
        let caller_secrets_file = nonempty_string(env_var(vars, "ARB_CALLER_SECRETS_FILE"));
        let mnemonic_path = nonempty_string(env_var(vars, "ARB_MNEMONIC_PATH"));
        let caller_indices = match env_var(vars, "ARB_CALLER_INDICES") {
            Some(raw) => parse_u32_list(raw),
            None => {
                let v = vec![0u32];
                proof {
                    assert(v@ =~= seq![0u32]);
                }
                v
            },
        };
        let rpc_url = match env_var(vars, "RPC_URL") {
            Some(v) => v.to_owned(),
            None => DEFAULT_RPC_URL.to_owned(),
        };
        let base_tokens = match token_list(vars, "ARB_BASE_TOKENS") {
            Some(t) => t,
            None => {
                let mut d: Vec<String> = Vec::new();
                d.push(XLM_SAC.to_owned());
                d.push(USDC_SAC.to_owned());
                proof {
                    assert(d.deep_view() =~= seq![XLM_SAC@, USDC_SAC@]);
                }
                d
            },
        };
        let bridge_tokens = match token_list(vars, "ARB_BRIDGE_TOKENS") {
            Some(t) => if t.len() > 0 {
                t
            } else {
                return Err(ConfigError::MissingBridgeTokens);
            },
            None => return Err(ConfigError::MissingBridgeTokens),
        };
        let probe_amount_in = number_var(vars, "ARB_PROBE_AMOUNT_IN", u128::MAX, 100_000_000);
        let min_profit = number_var(vars, "ARB_MIN_PROFIT", u128::MAX, 120_000);
        let slippage_bps = number_var(vars, "ARB_SLIPPAGE_BPS", 0xffff_ffff, 0) as u32;
        let max_hops = number_var(vars, "ARB_MAX_HOPS", usize::MAX as u128, 2) as usize;
        let max_splits = number_var(vars, "ARB_MAX_SPLITS", usize::MAX as u128, 1) as usize;
        let scan_interval_ms = scan_interval(vars);
        let item_gap_ms = number_var(vars, "ARB_ITEM_GAP_MS", 0xffff_ffff_ffff_ffff, 10) as u64;
        let workers = number_var(vars, "ARB_WORKER_COUNT", usize::MAX as u128, 4) as usize;
        let worker_count = if workers >= 1 {
            workers
        } else {
            1
        };
        let build_tx = flag_var(vars, "ARB_BUILD_TX", false);
        let optimize_amount = flag_var(vars, "ARB_OPTIMIZE_AMOUNT", true);
        let min_amount_in = number_var(vars, "ARB_MIN_AMOUNT_IN", u128::MAX, probe_amount_in);
        let max_amount_in = number_var(vars, "ARB_MAX_AMOUNT_IN", u128::MAX, 18_000_000_000);
        let sample_count = number_var(vars, "ARB_SAMPLE_COUNT", usize::MAX as u128, 8) as usize;
        let submit_tx = flag_var(vars, "ARB_SUBMIT_TX", false);
        let dry_run = flag_var(vars, "ARB_DRY_RUN", !submit_tx);
        let poll_tx = flag_var(vars, "ARB_POLL_TX", false);
        let submit_dedup_secs = number_var(vars, "ARB_SUBMIT_DEDUP_SECS", 0xffff_ffff_ffff_ffff, 6) as u64;
        Ok(
            ArbConfig {
                quote_api_urls,
                aggregator_contract,
                vault_contract,
                caller_secrets,
                caller_secrets_file,
                mnemonic_path,
                caller_indices,
                rpc_url,
                base_tokens,
                bridge_tokens,
                probe_amount_in,
                min_profit,
                slippage_bps,
                max_hops,
                max_splits,
                scan_interval_ms,
                item_gap_ms,
                worker_count,
                build_tx,
                optimize_amount,
                min_amount_in,
                max_amount_in,
                sample_count,
                submit_tx,
                dry_run,
                poll_tx,
                submit_dedup_secs,
            },
        )
    }
}

/// Transactions are built when building is on and an aggregator contract
/// is set.
pub fn execution_enabled(config: &ArbConfig) -> (r: bool)
    ensures
        r == (config.build_tx && config.aggregator_contract is Some),
{
    config.build_tx && config.aggregator_contract.is_some()
}

/// Transactions are built when execution is enabled and some caller
/// account can sign them.
pub fn build_enabled(config: &ArbConfig, callers: usize) -> (r: bool)
    ensures
        r == (config.build_tx && config.aggregator_contract is Some && callers > 0),
{
    execution_enabled(config) && callers > 0
}

/// Transactions are submitted when submitting is on and they are built.
pub fn submit_enabled(config: &ArbConfig, callers: usize) -> (r: bool)
    ensures
        r == (config.submit_tx && config.build_tx && config.aggregator_contract is Some && callers > 0),
{
    config.submit_tx && build_enabled(config, callers)
}

} // verus!
