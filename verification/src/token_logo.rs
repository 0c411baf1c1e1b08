//! Token logos: which downloaded images are kept, by their content type,
//! and the SVG avatar drawn for a token without one.

use vstd::prelude::*;
use vstd::string::{StrSliceExecFns, StringExecFns, StringSliceAdditionalSpecFns};

use crate::text::{ascii_lowercase, chars_eq, chars_of, nth_piece, nth_piece_chars, to_ascii_lower, trim_chars, trim_text};
use crate::utils::{sha256, sha256_of};

verus! {

/// The media type of a `Content-Type` value: before any `;`, trimmed, in
/// ASCII lower case.
pub open spec fn mime_of(content_type: Seq<char>) -> Seq<char> {
    match nth_piece(content_type, ";"@, 0) {
        Some(p) => ascii_lowercase(trim_text(p)),
        None => ascii_lowercase(trim_text(content_type)),
    }
}

/// The file extension kept for a content type: PNG, JPEG and WebP only.
pub open spec fn extension_value(content_type: Seq<char>) -> Option<Seq<char>> {
    let mime = mime_of(content_type);
    if mime == "image/png"@ {
        Some("png"@)
    } else if mime == "image/jpeg"@ {
        Some("jpg"@)
    } else if mime == "image/webp"@ {
        Some("webp"@)
    } else {
        None
    }
}

pub fn extension_for_content_type(content_type: &str) -> (r: Option<&'static str>)
    ensures
        r matches Some(e) ==> extension_value(content_type@) == Some(e@),
        r is None ==> extension_value(content_type@) is None,
{
    let text = chars_of(content_type);
    let semicolon = chars_of(";");
    proof {
        reveal_strlit(";");
    }
    let first = match nth_piece_chars(text.as_slice(), semicolon.as_slice(), 0) {
        Some(p) => p,
        None => text,
    };
    let trimmed = trim_chars(first.as_slice());
    let mime = to_ascii_lower(trimmed.as_slice());
    let png = chars_of("image/png");
    let jpeg = chars_of("image/jpeg");
    let webp = chars_of("image/webp");
    if chars_eq(mime.as_slice(), png.as_slice()) {
        Some("png")
    } else if chars_eq(mime.as_slice(), jpeg.as_slice()) {
        Some("jpg")
    } else if chars_eq(mime.as_slice(), webp.as_slice()) {
        Some("webp")
    } else {
        None
    }
}

/// One character as XML text: the five markup characters as entities.
pub open spec fn xml_escape_char(c: char) -> Seq<char> {
    if c == '&' {
        "&amp;"@
    } else if c == '<' {
        "&lt;"@
    } else if c == '>' {
        "&gt;"@
    } else if c == '"' {
        "&quot;"@
    } else if c == '\'' {
        "&apos;"@
    } else {
        seq![c]
    }
}

/// A text with each character escaped for XML.
pub open spec fn xml_escaped(s: Seq<char>) -> Seq<char>
    decreases s.len(),
{
    if s.len() == 0 {
        Seq::empty()
    } else {
        xml_escaped(s.drop_last()) + xml_escape_char(s.last())
    }
}

/// Escape `&`, `<`, `>`, `"` and `'` for XML text and attributes.
pub fn escape_xml(s: &str) -> (r: String)
    ensures
        r@ == xml_escaped(s@),
{
    let chars = chars_of(s);
    let mut out = String::new();
    let mut i: usize = 0;
    while i < chars.len()
        invariant
            chars@ == s@,
            i <= s@.len(),
            out@ == xml_escaped(s@.take(i as int)),
        decreases chars.len() - i,
    {
        let c = chars[i];
        proof {
            assert(s@.take(i + 1).drop_last() =~= s@.take(i as int));
            assert(s@.take(i + 1).last() == c);
        }
        if c == '&' {
            out.append("&amp;");
        } else if c == '<' {
            out.append("&lt;");
        } else if c == '>' {
            out.append("&gt;");
        } else if c == '"' {
            out.append("&quot;");
        } else if c == '\'' {
            out.append("&apos;");
        } else {
            let one = s.substring_char(i, i + 1);
            proof {
                assert(one@ =~= seq![c]);
            }
            out.append(one);
        }
        i = i + 1;
    }
    proof {
        assert(s@.take(i as int) =~= s@);
    }
    out
}

/// A lower-case hexadecimal digit.
pub open spec fn hex_digit(d: nat) -> char {
    if d < 10 {
        (('0' as nat) + d) as char
    } else {
        (('a' as nat) + d - 10) as char
    }
}

/// A byte as two lower-case hexadecimal digits.
pub open spec fn hex_byte(b: u8) -> Seq<char> {
    seq![hex_digit((b / 16) as nat), hex_digit((b % 16) as nat)]
}

/// A CSS colour `#rrggbb`.
pub open spec fn hex_color_text(r: u8, g: u8, b: u8) -> Seq<char> {
    seq!['#'] + hex_byte(r) + hex_byte(g) + hex_byte(b)
}

fn hex_digit_str(d: u8) -> (r: &'static str)
    requires
        d < 16,
    ensures
        r@ == seq![hex_digit(d as nat)],
{
    proof {
        reveal_strlit("0");
        reveal_strlit("1");
        reveal_strlit("2");
        reveal_strlit("3");
        reveal_strlit("4");
        reveal_strlit("5");
        reveal_strlit("6");
        reveal_strlit("7");
        reveal_strlit("8");
        reveal_strlit("9");
        reveal_strlit("a");
        reveal_strlit("b");
        reveal_strlit("c");
        reveal_strlit("d");
        reveal_strlit("e");
        reveal_strlit("f");
    }
    match d {
        0 => "0",
        1 => "1",
        2 => "2",
        3 => "3",
        4 => "4",
        5 => "5",
        6 => "6",
        7 => "7",
        8 => "8",
        9 => "9",
        10 => "a",
        11 => "b",
        12 => "c",
        13 => "d",
        14 => "e",
        _ => "f",
    }
}

fn push_hex_byte(out: &mut String, b: u8)
    ensures
        final(out)@ == old(out)@ + hex_byte(b),
{
    out.append(hex_digit_str(b / 16));
    out.append(hex_digit_str(b % 16));
    proof {
        assert(final(out)@ =~= old(out)@ + hex_byte(b));
    }
}

/// The colour `#rrggbb`.
pub fn hex_color(r: u8, g: u8, b: u8) -> (c: String)
    ensures
        c@ == hex_color_text(r, g, b),
{
    let mut out = String::new();
    proof {
        reveal_strlit("#");
    }
    out.append("#");
    push_hex_byte(&mut out, r);
    push_hex_byte(&mut out, g);
    push_hex_byte(&mut out, b);
    proof {
        assert(out@ =~= hex_color_text(r, g, b));
    }
    out
}

/// The first three bytes of the SHA-256 digest of a token id: the red,
/// green and blue of its avatar.
pub open spec fn token_color_value(token_id: &str) -> (u8, u8, u8) {
    let d = sha256_of(token_id.spec_bytes());
    (d[0], d[1], d[2])
}

/// Red, green and blue of a token's avatar, from the digest of its id.
pub fn token_color_bytes(token_id: &str) -> (r: (u8, u8, u8))
    ensures
        r == token_color_value(token_id),
{
    let digest = sha256(token_id.as_bytes());
    (digest[0], digest[1], digest[2])
}

/// The avatar: a circle in `bg` with the escaped symbol in `fg`.
pub open spec fn avatar_svg(bg: Seq<char>, fg: Seq<char>, symbol: Seq<char>) -> Seq<char> {
    "<svg xmlns=\"http://www.w3.org/2000/svg\" width=\"128\" height=\"128\" viewBox=\"0 0 128 128\"><rect width=\"128\" height=\"128\" rx=\"64\" fill=\""@
        + bg + "\"/><text x=\"64\" y=\"64\" dy=\"0.35em\" text-anchor=\"middle\" fill=\""@ + fg
        + "\" font-family=\"sans-serif\" font-size=\"36\" font-weight=\"600\">"@ + xml_escaped(symbol)
        + "</text></svg>"@
}

/// Deterministic SVG avatar with XML-escaped symbol text, its background
/// derived from the token id's digest and its text in `fg`.
pub fn fallback_svg(symbol: &str, token_id: &str, fg: &str) -> (r: String)
    ensures
        ({
            let (red, green, blue) = token_color_value(token_id);
            r@ == avatar_svg(hex_color_text(red, green, blue), fg@, symbol@)
        }),
{
    let escaped = escape_xml(symbol);
    let (red, green, blue) = token_color_bytes(token_id);
    let bg = hex_color(red, green, blue);
    let mut out = String::new();
    out.append("<svg xmlns=\"http://www.w3.org/2000/svg\" width=\"128\" height=\"128\" viewBox=\"0 0 128 128\"><rect width=\"128\" height=\"128\" rx=\"64\" fill=\"");
    out.append(bg.as_str());
    out.append("\"/><text x=\"64\" y=\"64\" dy=\"0.35em\" text-anchor=\"middle\" fill=\"");
    out.append(fg);
    out.append("\" font-family=\"sans-serif\" font-size=\"36\" font-weight=\"600\">");
    out.append(escaped.as_str());
    out.append("</text></svg>");
    out
}

} // verus!
