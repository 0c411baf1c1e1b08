//! Text helpers shared by the modules: equality and lookup of strings by
//! their characters.

use vstd::prelude::*;
use vstd::std_specs::iter::IteratorSpec;
use vstd::string::StringExecFns;

verus! {

/// Whether two strings hold the same characters.
pub fn str_eq(a: &str, b: &str) -> (r: bool)
    ensures
        r == (a@ == b@),
{
    let x = a.to_owned();
    let y = b.to_owned();
    x == y
}

/// Index of the first entry of `s` equal to `t`.
pub open spec fn first_index(s: Seq<Seq<char>>, t: Seq<char>) -> Option<int>
    decreases s.len(),
{
    if s.len() == 0 {
        None
    } else {
        match first_index(s.drop_last(), t) {
            Some(i) => Some(i),
            None => if s.last() == t {
                Some(s.len() - 1)
            } else {
                None
            },
        }
    }
}

/// `first_index` finds the earliest match, and `None` means no match.
pub proof fn lemma_first_index(s: Seq<Seq<char>>, t: Seq<char>)
    ensures
        match first_index(s, t) {
            Some(i) => 0 <= i < s.len() && s[i] == t && forall|j: int| 0 <= j < i ==> s[j] != t,
            None => forall|j: int| 0 <= j < s.len() ==> s[j] != t,
        },
    decreases s.len(),
{
    if s.len() > 0 {
        lemma_first_index(s.drop_last(), t);
        match first_index(s.drop_last(), t) {
            Some(i) => {
                assert(s.drop_last()[i] == s[i]);
                assert forall|j: int| 0 <= j < i implies s[j] != t by {
                    assert(s.drop_last()[j] == s[j]);
                }
            },
            None => {
                assert forall|j: int| 0 <= j < s.len() - 1 implies s[j] != t by {
                    assert(s.drop_last()[j] == s[j]);
                }
            },
        }
    }
}

/// The characterisation of `first_index` pins it down.
pub proof fn lemma_first_index_unique(s: Seq<Seq<char>>, t: Seq<char>, i: int)
    requires
        0 <= i < s.len(),
        s[i] == t,
        forall|j: int| 0 <= j < i ==> s[j] != t,
    ensures
        first_index(s, t) == Some(i),
{
    lemma_first_index(s, t);
}

/// Position of the first string in `items` with the characters of `t`.
pub fn position_of(items: &Vec<String>, t: &str) -> (r: Option<usize>)
    ensures
        r matches Some(i) ==> first_index(items.deep_view(), t@) == Some(i as int),
        r is None ==> first_index(items.deep_view(), t@) is None,
{
    let mut i: usize = 0;
    while i < items.len()
        invariant
            i <= items.len(),
            forall|j: int| 0 <= j < i ==> items.deep_view()[j] != t@,
        decreases items.len() - i,
    {
        if str_eq(items[i].as_str(), t) {
            proof {
                lemma_first_index_unique(items.deep_view(), t@, i as int);
            }
            return Some(i);
        }
        i = i + 1;
    }
    proof {
        lemma_first_index(items.deep_view(), t@);
    }
    None
}

/// Byte-wise lexicographic order, the order of `str`: a proper prefix comes
/// first, otherwise the first differing byte decides.
pub open spec fn bytes_lt(a: Seq<u8>, b: Seq<u8>) -> bool
    decreases a.len(),
{
    if a.len() == 0 {
        b.len() > 0
    } else if b.len() == 0 {
        false
    } else if a[0] != b[0] {
        a[0] < b[0]
    } else {
        bytes_lt(a.drop_first(), b.drop_first())
    }
}

/// `bytes_lt` is a strict total order.
pub proof fn lemma_bytes_lt_total(a: Seq<u8>, b: Seq<u8>)
    ensures
        !bytes_lt(a, a),
        !(bytes_lt(a, b) && bytes_lt(b, a)),
        a == b || bytes_lt(a, b) || bytes_lt(b, a),
    decreases a.len(),
{
    if a.len() > 0 && b.len() > 0 {
        lemma_bytes_lt_total(a.drop_first(), b.drop_first());
        lemma_bytes_lt_total(a.drop_first(), a.drop_first());
        if a[0] == b[0] && a.drop_first() == b.drop_first() {
            assert(a =~= seq![a[0]] + a.drop_first());
            assert(b =~= seq![b[0]] + b.drop_first());
        }
    } else if a.len() > 0 {
        lemma_bytes_lt_total(a.drop_first(), a.drop_first());
    } else if b.len() == 0 {
        assert(a =~= b);
    }
}

/// `bytes_lt` is transitive.
pub proof fn lemma_bytes_lt_trans(a: Seq<u8>, b: Seq<u8>, c: Seq<u8>)
    requires
        bytes_lt(a, b),
        bytes_lt(b, c),
    ensures
        bytes_lt(a, c),
    decreases a.len(),
{
    if a.len() > 0 && a[0] == b[0] && b[0] == c[0] {
        lemma_bytes_lt_trans(a.drop_first(), b.drop_first(), c.drop_first());
    }
}

/// Where one byte string stands against another.
#[derive(Debug, Clone, Copy, PartialEq, Eq)]
pub enum BytePlace {
    Before,
    Same,
    After,
}

/// Compare two byte strings in `bytes_lt` order.
pub fn place_bytes(a: &[u8], b: &[u8]) -> (r: BytePlace)
    ensures
        r == BytePlace::Before <==> bytes_lt(a@, b@),
        r == BytePlace::Same <==> a@ == b@,
        r == BytePlace::After <==> bytes_lt(b@, a@),
{
    proof {
        lemma_bytes_lt_total(a@, b@);
        assert(a@.skip(0) =~= a@);
        assert(b@.skip(0) =~= b@);
    }
    let mut i: usize = 0;
    while i < a.len() && i < b.len()
        invariant
            i <= a@.len(),
            i <= b@.len(),
            a@.subrange(0, i as int) == b@.subrange(0, i as int),
            bytes_lt(a@, b@) == bytes_lt(a@.skip(i as int), b@.skip(i as int)),
            bytes_lt(b@, a@) == bytes_lt(b@.skip(i as int), a@.skip(i as int)),
        decreases a.len() - i,
    {
        if a[i] < b[i] {
            return BytePlace::Before;
        }
        if b[i] < a[i] {
            return BytePlace::After;
        }
        proof {
            assert(a@.skip(i as int).drop_first() =~= a@.skip(i + 1));
            assert(b@.skip(i as int).drop_first() =~= b@.skip(i + 1));
            assert(a@.subrange(0, i + 1) =~= a@.subrange(0, i as int).push(a@[i as int]));
            assert(b@.subrange(0, i + 1) =~= b@.subrange(0, i as int).push(b@[i as int]));
        }
        i = i + 1;
    }
    if i < b.len() {
        BytePlace::Before
    } else if i < a.len() {
        BytePlace::After
    } else {
        proof {
            assert(a@ =~= a@.subrange(0, i as int));
            assert(b@ =~= b@.subrange(0, i as int));
        }
        BytePlace::Same
    }
}

/// The parts with `sep` between each two of them.
pub open spec fn joined(parts: Seq<Seq<char>>, sep: Seq<char>) -> Seq<char>
    decreases parts.len(),
{
    if parts.len() == 0 {
        seq![]
    } else if parts.len() == 1 {
        parts[0]
    } else {
        joined(parts.drop_last(), sep) + sep + parts.last()
    }
}

/// Join strings with a separator.
pub fn join_strings(parts: &[String], sep: &str) -> (r: String)
    ensures
        r@ == joined(parts@.map_values(|p: String| p@), sep@),
{
    let ghost views = parts@.map_values(|p: String| p@);
    let mut out = String::new();
    let mut i: usize = 0;
    while i < parts.len()
        invariant
            i <= parts@.len(),
            views == parts@.map_values(|p: String| p@),
            out@ == joined(views.take(i as int), sep@),
        decreases parts.len() - i,
    {
        if i > 0 {
            out.append(sep);
        }
        out.append(parts[i].as_str());
        proof {
            assert(views.take(i + 1).drop_last() =~= views.take(i as int));
            if i == 0 {
                assert(out@ =~= joined(views.take(1), sep@));
            }
        }
        i = i + 1;
    }
    proof {
        assert(views.take(i as int) =~= views);
    }
    out
}

/// The characters of a string.
pub fn chars_of(s: &str) -> (r: Vec<char>)
    ensures
        r@ == s@,
{
    broadcast use vstd::string::axiom_spec_iter, vstd::string::next_postcondition;

    let mut it = s.chars();
    let mut out: Vec<char> = Vec::new();
    loop
        invariant
            out@ + it.remaining() == s@,
            it.obeys_prophetic_iter_laws(),
            it.decrease() is Some,
        ensures
            out@ == s@,
        decreases it.decrease()->0,
    {
        let ghost before = it.remaining();
        match it.next() {
            Some(c) => {
                out.push(c);
                proof {
                    assert(out@ + it.remaining() =~= s@) by {
                        assert(before =~= seq![c] + before.drop_first());
                    }
                }
            },
            None => {
                proof {
                    assert(out@ + it.remaining() =~= out@);
                }
                break;
            },
        }
    }
    out
}

/// `needle` occurs in `hay` at position `i`.
pub open spec fn occurs_at(hay: Seq<char>, needle: Seq<char>, i: int) -> bool {
    0 <= i && i + needle.len() <= hay.len() && hay.subrange(i, i + needle.len()) == needle
}

/// `needle` occurs somewhere in `hay`.
pub open spec fn has_substring(hay: Seq<char>, needle: Seq<char>) -> bool {
    exists|i: int| occurs_at(hay, needle, i)
}

/// The first occurrence of `needle` in `hay` at or after `from`.
pub open spec fn find_from(hay: Seq<char>, needle: Seq<char>, from: nat) -> Option<nat>
    decreases hay.len() + 1 - from,
{
    if from + needle.len() > hay.len() {
        None
    } else if occurs_at(hay, needle, from as int) {
        Some(from)
    } else {
        find_from(hay, needle, from + 1)
    }
}

/// `find_from` finds the earliest occurrence at or after `from`, and `None`
/// means there is none.
pub proof fn lemma_find_from(hay: Seq<char>, needle: Seq<char>, from: nat)
    ensures
        match find_from(hay, needle, from) {
            Some(i) => from <= i && occurs_at(hay, needle, i as int) && forall|j: int|
                from <= j < i ==> !occurs_at(hay, needle, j),
            None => forall|j: int| from <= j ==> !occurs_at(hay, needle, j),
        },
    decreases hay.len() + 1 - from,
{
    if from + needle.len() <= hay.len() && !occurs_at(hay, needle, from as int) {
        lemma_find_from(hay, needle, from + 1);
    }
}

/// `needle` occurs in `hay` exactly when a search from the start finds it.
pub proof fn lemma_has_substring(hay: Seq<char>, needle: Seq<char>)
    ensures
        has_substring(hay, needle) <==> find_from(hay, needle, 0) is Some,
{
    lemma_find_from(hay, needle, 0);
}

/// The first occurrence of `needle` in `hay` at or after `from`.
pub fn find_chars(hay: &[char], needle: &[char], from: usize) -> (r: Option<usize>)
    ensures
        r matches Some(i) ==> find_from(hay@, needle@, from as nat) == Some(i as nat),
        r is None ==> find_from(hay@, needle@, from as nat) is None,
{
    let mut i = from;
    while i <= hay.len() && needle.len() <= hay.len() - i
        invariant
            from <= i,
            find_from(hay@, needle@, from as nat) == find_from(hay@, needle@, i as nat),
        decreases hay.len() + 1 - i,
    {
        let end = i + needle.len();
        let mut k: usize = 0;
        while k < needle.len()
            invariant
                end == i + needle@.len(),
                end <= hay@.len(),
                k <= needle@.len(),
                forall|j: int| 0 <= j < k ==> hay@[i + j] == needle@[j],
            ensures
                k <= needle@.len(),
                forall|j: int| 0 <= j < k ==> hay@[i + j] == needle@[j],
                k < needle@.len() ==> hay@[i + k] != needle@[k as int],
            decreases needle.len() - k,
        {
            if hay[i + k] != needle[k] {
                break;
            }
            k = k + 1;
        }
        if k == needle.len() {
            proof {
                assert(hay@.subrange(i as int, i + needle@.len()) =~= needle@);
            }
            return Some(i);
        }
        proof {
            assert(!occurs_at(hay@, needle@, i as int)) by {
                if occurs_at(hay@, needle@, i as int) {
                    assert(hay@.subrange(i as int, i + needle@.len())[k as int] == hay@[i + k]);
                }
            }
        }
        i = i + 1;
    }
    None
}

/// Whether `hay` contains `needle`.
pub fn contains_chars(hay: &[char], needle: &[char]) -> (r: bool)
    ensures
        r == has_substring(hay@, needle@),
{
    proof {
        lemma_has_substring(hay@, needle@);
    }
    find_chars(hay, needle, 0).is_some()
}

/// ASCII upper-case letters to lower case; every other character unchanged.
pub open spec fn ascii_lower(c: char) -> char {
    if 'A' <= c <= 'Z' {
        ((c as u32) + 32) as char
    } else {
        c
    }
}

/// The ASCII lower-case form of a text.
pub open spec fn ascii_lowercase(s: Seq<char>) -> Seq<char> {
    s.map_values(|c: char| ascii_lower(c))
}

/// The ASCII lower-case form of a text.
pub fn to_ascii_lower(s: &[char]) -> (r: Vec<char>)
    ensures
        r@ == ascii_lowercase(s@),
{
    let mut out: Vec<char> = Vec::new();
    let mut i: usize = 0;
    while i < s.len()
        invariant
            i <= s@.len(),
            out@ == ascii_lowercase(s@.take(i as int)),
        decreases s.len() - i,
    {
        let c = s[i];
        let l = if 'A' <= c && c <= 'Z' {
            ((c as u8) + 32) as char
        } else {
            c
        };
        out.push(l);
        proof {
            assert(ascii_lowercase(s@.take(i + 1)) =~= ascii_lowercase(s@.take(i as int)).push(ascii_lower(c)));
        }
        i = i + 1;
    }
    proof {
        assert(s@.take(i as int) =~= s@);
    }
    out
}

/// The Unicode `White_Space` characters, as `char::is_whitespace` reads them.
pub open spec fn is_white_space(c: char) -> bool {
    let u = c as u32;
    (0x9 <= u <= 0xd) || u == 0x20 || u == 0x85 || u == 0xa0 || u == 0x1680 || (0x2000 <= u <= 0x200a) || u
        == 0x2028 || u == 0x2029 || u == 0x202f || u == 0x205f || u == 0x3000
}

pub(crate) fn white_space_char(c: char) -> (r: bool)
    ensures
        r == is_white_space(c),
{
    let u = c as u32;
    (0x9 <= u && u <= 0xd) || u == 0x20 || u == 0x85 || u == 0xa0 || u == 0x1680 || (0x2000 <= u && u <= 0x200a) || u
        == 0x2028 || u == 0x2029 || u == 0x202f || u == 0x205f || u == 0x3000
}

/// Leading white space removed.
pub open spec fn trim_start_text(s: Seq<char>) -> Seq<char>
    decreases s.len(),
{
    if s.len() > 0 && is_white_space(s[0]) {
        trim_start_text(s.drop_first())
    } else {
        s
    }
}

/// Trailing white space removed.
pub open spec fn trim_end_text(s: Seq<char>) -> Seq<char>
    decreases s.len(),
{
    if s.len() > 0 && is_white_space(s.last()) {
        trim_end_text(s.drop_last())
    } else {
        s
    }
}

/// Leading and trailing white space removed, as `str::trim` does.
pub open spec fn trim_text(s: Seq<char>) -> Seq<char> {
    trim_end_text(trim_start_text(s))
}

/// Leading and trailing white space removed.
pub fn trim_chars(s: &[char]) -> (r: Vec<char>)
    ensures
        r@ == trim_text(s@),
{
    let mut a: usize = 0;
    proof {
        assert(s@.skip(0) =~= s@);
    }
    while a < s.len() && white_space_char(s[a])
        invariant
            a <= s@.len(),
            trim_start_text(s@) == trim_start_text(s@.skip(a as int)),
        decreases s.len() - a,
    {
        proof {
            assert(s@.skip(a as int).drop_first() =~= s@.skip(a + 1));
        }
        a = a + 1;
    }
    proof {
        assert(s@.skip(0) =~= s@);
    }
    let ghost start = s@.skip(a as int);
    assert(trim_start_text(s@) == start) by {
        assert(s@.skip(0) =~= s@);
    }
    let mut b: usize = s.len();
    while b > a && white_space_char(s[b - 1])
        invariant
            a <= b <= s@.len(),
            trim_end_text(start) == trim_end_text(s@.subrange(a as int, b as int)),
        decreases b,
    {
        proof {
            assert(s@.subrange(a as int, b as int).drop_last() =~= s@.subrange(a as int, b - 1));
        }
        b = b - 1;
    }
    proof {
        assert(start =~= s@.subrange(a as int, s@.len() as int));
    }
    let mut out: Vec<char> = Vec::new();
    let mut i = a;
    while i < b
        invariant
            a <= i <= b <= s@.len(),
            out@ == s@.subrange(a as int, i as int),
        decreases b - i,
    {
        out.push(s[i]);
        proof {
            assert(s@.subrange(a as int, i + 1) =~= s@.subrange(a as int, i as int).push(s@[i as int]));
        }
        i = i + 1;
    }
    out
}

/// A search from `from` finds `i` when `needle` occurs at `i` and nowhere in
/// between.
pub proof fn lemma_find_from_at(hay: Seq<char>, needle: Seq<char>, from: nat, i: nat)
    requires
        from <= i,
        occurs_at(hay, needle, i as int),
        forall|j: int| from <= j < i ==> !occurs_at(hay, needle, j),
    ensures
        find_from(hay, needle, from) == Some(i),
{
    lemma_find_from(hay, needle, from);
}

/// The piece of `s` number `k` (from 0) when split at each occurrence of
/// `pat`, if there are that many (what `s.split(pat).nth(k)` gives).
pub open spec fn nth_piece(s: Seq<char>, pat: Seq<char>, k: nat) -> Option<Seq<char>>
    decreases k,
{
    match find_from(s, pat, 0) {
        None => if k == 0 {
            Some(s)
        } else {
            None
        },
        Some(i) => if k == 0 {
            Some(s.take(i as int))
        } else {
            nth_piece(s.skip((i + pat.len()) as int), pat, (k - 1) as nat)
        },
    }
}

/// The piece of `s` number `k` when split at each occurrence of `pat`.
pub fn nth_piece_chars(s: &[char], pat: &[char], k: usize) -> (r: Option<Vec<char>>)
    requires
        pat@.len() > 0,
    ensures
        r matches Some(v) ==> nth_piece(s@, pat@, k as nat) == Some(v@),
        r is None ==> nth_piece(s@, pat@, k as nat) is None,
{
    let mut start: usize = 0;
    let mut n: usize = 0;
    proof {
        assert(s@.skip(0) =~= s@);
    }
    loop
        invariant
            start <= s@.len(),
            n <= k,
            nth_piece(s@, pat@, k as nat) == nth_piece(s@.skip(start as int), pat@, (k - n) as nat),
            pat@.len() > 0,
        decreases k - n,
    {
        let ghost rest = s@.skip(start as int);
        let found = find_chars(s, pat, start);
        proof {
            lemma_find_from(s@, pat@, start as nat);
            lemma_find_from(rest, pat@, 0);
            match find_from(s@, pat@, start as nat) {
                Some(i) => {
                    assert forall|j: int| 0 <= j < i - start implies !occurs_at(rest, pat@, j) by {
                        assert(!occurs_at(s@, pat@, start + j));
                        if occurs_at(rest, pat@, j) {
                            assert(rest.subrange(j, j + pat@.len()) =~= s@.subrange(start + j, start + j + pat@.len()));
                        }
                    }
                    assert(rest.subrange(i - start, i - start + pat@.len()) =~= s@.subrange(i as int, (i + pat@.len()) as int));
                    lemma_find_from_at(rest, pat@, 0, (i - start) as nat);
                },
                None => {
                    assert forall|j: int| 0 <= j implies !occurs_at(rest, pat@, j) by {
                        if occurs_at(rest, pat@, j) {
                            assert(rest.subrange(j, j + pat@.len()) =~= s@.subrange(start + j, start + j + pat@.len()));
                            assert(occurs_at(s@, pat@, start + j));
                        }
                    }
                },
            }
        }
        match found {
            None => {
                if n == k {
                    let mut out: Vec<char> = Vec::new();
                    let mut t = start;
                    while t < s.len()
                        invariant
                            start <= t <= s@.len(),
                            out@ == s@.subrange(start as int, t as int),
                        decreases s.len() - t,
                    {
                        out.push(s[t]);
                        proof {
                            assert(s@.subrange(start as int, t + 1) =~= s@.subrange(start as int, t as int).push(s@[t as int]));
                        }
                        t = t + 1;
                    }
                    proof {
                        assert(out@ =~= rest);
                    }
                    return Some(out);
                }
                return None;
            },
            Some(i) => {
                if n == k {
                    let mut out: Vec<char> = Vec::new();
                    let mut t = start;
                    while t < i
                        invariant
                            start <= t <= i <= s@.len(),
                            out@ == s@.subrange(start as int, t as int),
                        decreases i - t,
                    {
                        out.push(s[t]);
                        proof {
                            assert(s@.subrange(start as int, t + 1) =~= s@.subrange(start as int, t as int).push(s@[t as int]));
                        }
                        t = t + 1;
                    }
                    proof {
                        assert(out@ =~= rest.take(i - start));
                    }
                    return Some(out);
                }
                let total = s.len();
                let pat_len = pat.len();
                proof {
                    assert(occurs_at(s@, pat@, i as int));
                    assert(i + pat_len <= total);
                    assert(rest.skip(i - start + pat@.len()) =~= s@.skip(i + pat@.len()));
                }
                start = i + pat_len;
                n = n + 1;
            },
        }
    }
}

/// Drop one trailing carriage return.
pub open spec fn strip_cr(line: Seq<char>) -> Seq<char> {
    if line.len() > 0 && line.last() == '\r' {
        line.drop_last()
    } else {
        line
    }
}

/// The lines of a text, as `str::lines` gives them: split after each line
/// feed, which goes with one carriage return before it; a final line feed
/// starts no further line.
pub open spec fn text_lines(s: Seq<char>) -> Seq<Seq<char>>
    decreases s.len(),
{
    if s.len() == 0 {
        seq![]
    } else {
        match find_from(s, seq!['\n'], 0) {
            None => seq![s],
            Some(p) => {
                proof {
                    lemma_find_from(s, seq!['\n'], 0);
                }
                seq![strip_cr(s.take(p as int))] + text_lines(s.skip((p + 1) as int))
            },
        }
    }
}

/// The character sequences of the strings.
pub open spec fn views_of(v: Seq<Vec<char>>) -> Seq<Seq<char>> {
    v.map_values(|l: Vec<char>| l@)
}

/// The lines of a text.
pub fn lines_of(s: &[char]) -> (r: Vec<Vec<char>>)
    ensures
        views_of(r@) == text_lines(s@),
{
    let mut out: Vec<Vec<char>> = Vec::new();
    let mut start: usize = 0;
    let mut line: Vec<char> = Vec::new();
    let mut i: usize = 0;
    proof {
        assert(s@.skip(0) =~= s@);
        assert(views_of(out@) + text_lines(s@) =~= text_lines(s@));
    }
    while i < s.len()
        invariant
            start <= i <= s@.len(),
            line@ == s@.subrange(start as int, i as int),
            forall|j: int| start <= j < i ==> s@[j] != '\n',
            text_lines(s@) == views_of(out@) + text_lines(s@.skip(start as int)),
        decreases s.len() - i,
    {
        let c = s[i];
        if c == '\n' {
            proof {
                let rest = s@.skip(start as int);
                assert forall|j: int| 0 <= j < i - start implies !occurs_at(rest, seq!['\n'], j) by {
                    assert(s@[start + j] != '\n');
                    if occurs_at(rest, seq!['\n'], j) {
                        assert(rest.subrange(j, j + 1)[0] == s@[start + j]);
                    }
                }
                assert(rest.subrange(i - start, i - start + 1) =~= seq!['\n']);
                lemma_find_from_at(rest, seq!['\n'], 0, (i - start) as nat);
                assert(rest.take(i - start) =~= line@);
                assert(rest.skip(i - start + 1) =~= s@.skip(i + 1));
            }
            let mut piece = line;
            if piece.len() > 0 && piece[piece.len() - 1] == '\r' {
                piece.pop();
            }
            proof {
                assert(piece@ == strip_cr(s@.subrange(start as int, i as int)));
            }
            let ghost before = views_of(out@);
            let ghost piece_view = piece@;
            out.push(piece);
            proof {
                assert(views_of(out@) =~= before.push(piece_view));
                let rest = s@.skip(start as int);
                assert(text_lines(rest) == seq![piece_view] + text_lines(s@.skip(i + 1)));
                assert(before + text_lines(rest) =~= views_of(out@) + text_lines(s@.skip(i + 1)));
            }
            line = Vec::new();
            start = i + 1;
        } else {
            line.push(c);
            proof {
                assert(s@.subrange(start as int, i + 1) =~= s@.subrange(start as int, i as int).push(c));
            }
        }
        i = i + 1;
    }
    if start < s.len() {
        proof {
            let rest = s@.skip(start as int);
            assert forall|j: int| 0 <= j implies !occurs_at(rest, seq!['\n'], j) by {
                if occurs_at(rest, seq!['\n'], j) {
                    assert(rest.subrange(j, j + 1)[0] == s@[start + j]);
                    assert(s@[start + j] != '\n');
                }
            }
            lemma_find_from(rest, seq!['\n'], 0);
            assert(line@ =~= rest);
        }
        let ghost before = views_of(out@);
        let ghost line_view = line@;
        out.push(line);
        proof {
            assert(views_of(out@) =~= before.push(line_view));
            assert(text_lines(s@.skip(start as int)) == seq![line_view]);
            assert(before + seq![line_view] =~= views_of(out@));
        }
    } else {
        proof {
            assert(s@.skip(start as int) =~= Seq::<char>::empty());
            assert(views_of(out@) + Seq::<Seq<char>>::empty() =~= views_of(out@));
        }
    }
    out
}

pub open spec fn is_ascii_digit(c: char) -> bool {
    '0' <= c <= '9'
}

/// The decimal digits at the start of a text.
pub open spec fn leading_digits(s: Seq<char>) -> Seq<char>
    decreases s.len(),
{
    if s.len() > 0 && is_ascii_digit(s[0]) {
        seq![s[0]] + leading_digits(s.drop_first())
    } else {
        seq![]
    }
}

/// The value of a string of decimal digits.
pub open spec fn digits_value(d: Seq<char>) -> nat
    decreases d.len(),
{
    if d.len() == 0 {
        0
    } else {
        digits_value(d.drop_last()) * 10 + ((d.last() as u32) - 48) as nat
    }
}

/// The number that the leading digits of a text spell, when there is one
/// and it fits in `u128` (what `parse::<u128>` makes of them).
pub open spec fn leading_number(s: Seq<char>) -> Option<u128> {
    let d = leading_digits(s);
    if d.len() == 0 || digits_value(d) > u128::MAX {
        None
    } else {
        Some(digits_value(d) as u128)
    }
}

proof fn lemma_leading_digits_split(s: Seq<char>, i: int)
    requires
        0 <= i <= s.len(),
        forall|j: int| 0 <= j < i ==> is_ascii_digit(#[trigger] s[j]),
    ensures
        leading_digits(s) == s.take(i) + leading_digits(s.skip(i)),
    decreases i,
{
    if i > 0 {
        lemma_leading_digits_split(s.drop_first(), i - 1);
        assert(s.drop_first().take(i - 1) =~= s.take(i).drop_first());
        assert(s.drop_first().skip(i - 1) =~= s.skip(i));
        assert(s.take(i) =~= seq![s[0]] + s.take(i).drop_first());
        assert(seq![s[0]] + (s.take(i).drop_first() + leading_digits(s.skip(i))) =~= s.take(i) + leading_digits(
            s.skip(i),
        ));
    } else {
        assert(s.skip(0) =~= s);
        assert(s.take(0) + leading_digits(s) =~= leading_digits(s));
    }
}

/// The number spelled by the leading digits of a text.
pub fn parse_leading_number(s: &[char]) -> (r: Option<u128>)
    ensures
        r == leading_number(s@),
{
    let mut i: usize = 0;
    let mut value: Option<u128> = Some(0);
    while i < s.len() && '0' <= s[i] && s[i] <= '9'
        invariant
            i <= s@.len(),
            forall|j: int| 0 <= j < i ==> is_ascii_digit(#[trigger] s@[j]),
            value matches Some(v) ==> v == digits_value(s@.take(i as int)),
            value is None ==> digits_value(s@.take(i as int)) > u128::MAX,
        decreases s.len() - i,
    {
        let d = (s[i] as u32 - 48) as u128;
        proof {
            assert(s@.take(i + 1).drop_last() =~= s@.take(i as int));
        }
        value = match value {
            Some(v) => match v.checked_mul(10) {
                Some(t) => t.checked_add(d),
                None => None,
            },
            None => None,
        };
        i = i + 1;
    }
    proof {
        lemma_leading_digits_split(s@, i as int);
        if i < s@.len() {
            assert(!is_ascii_digit(s@.skip(i as int)[0]));
        }
        assert(leading_digits(s@.skip(i as int)) =~= Seq::<char>::empty());
        assert(leading_digits(s@) =~= s@.take(i as int));
    }
    if i == 0 {
        return None;
    }
    value
}

/// Whether two texts hold the same characters.
pub fn chars_eq(a: &[char], b: &[char]) -> (r: bool)
    ensures
        r == (a@ == b@),
{
    if a.len() != b.len() {
        return false;
    }
    let mut i: usize = 0;
    while i < a.len()
        invariant
            a@.len() == b@.len(),
            i <= a@.len(),
            forall|j: int| 0 <= j < i ==> a@[j] == b@[j],
        decreases a.len() - i,
    {
        if a[i] != b[i] {
            return false;
        }
        i = i + 1;
    }
    proof {
        assert(a@ =~= b@);
    }
    true
}

} // verus!
