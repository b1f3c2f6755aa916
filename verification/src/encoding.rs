//! Percent-encoding (the `urlencoding` crate) and JSON string literals (`serde_json`).
use vstd::prelude::*;
use vstd::utf8::{decode_utf8, encode_utf8, valid_utf8, is_ascii_chars, is_ascii_chars_encode_utf8, encode_utf8_valid_utf8, encode_utf8_decode_utf8};

verus! {

/// Bytes that percent-encoding leaves as they are: ASCII letters, digits and `-._~`.
pub open spec fn is_unreserved(b: u8) -> bool {
    (48 <= b <= 57) || (65 <= b <= 90) || (97 <= b <= 122) || b == 45 || b == 46 || b == 95 || b == 126
}

/// Upper-case hexadecimal digit of a value below 16.
pub open spec fn hex_upper(d: u8) -> u8 {
    if d < 10 { (48 + d) as u8 } else { (55 + d) as u8 }
}

/// Percent-encoding of a byte sequence: unreserved bytes stay, every other byte
/// becomes `%` and two upper-case hexadecimal digits.
pub open spec fn percent_encode(bytes: Seq<u8>) -> Seq<u8>
    decreases bytes.len(),
{
    if bytes.len() == 0 {
        seq![]
    } else {
        let b = bytes[0];
        (if is_unreserved(b) { seq![b] } else { seq![37u8, hex_upper(b / 16), hex_upper(b % 16)] })
            + percent_encode(bytes.drop_first())
    }
}

/// The text `urlencoding::encode` gives for `s`: the percent-encoding of its UTF-8 bytes.
pub open spec fn url_encoded(s: Seq<char>) -> Seq<char> {
    percent_encode(encode_utf8(s)).map_values(|b: u8| b as char)
}

/// The value of a hexadecimal digit (either case).
pub open spec fn hex_value(b: u8) -> Option<u8> {
    if 48 <= b <= 57 {
        Some((b - 48) as u8)
    } else if 65 <= b <= 70 {
        Some((b - 55) as u8)
    } else if 97 <= b <= 102 {
        Some((b - 87) as u8)
    } else {
        None
    }
}

/// Percent-decoding of a byte sequence: `%` followed by two hexadecimal digits
/// becomes the byte they spell; every other byte, a lone `%` included, stays.
pub open spec fn percent_decode(bytes: Seq<u8>) -> Seq<u8>
    decreases bytes.len(),
{
    if bytes.len() == 0 {
        seq![]
    } else if bytes[0] == 37 && bytes.len() >= 3 && hex_value(bytes[1]) is Some && hex_value(bytes[2]) is Some {
        seq![(hex_value(bytes[1])->Some_0 * 16 + hex_value(bytes[2])->Some_0) as u8] + percent_decode(bytes.skip(3))
    } else {
        seq![bytes[0]] + percent_decode(bytes.drop_first())
    }
}

/// What `urlencoding::decode` gives for `s`: the percent-decoded bytes read as
/// UTF-8, or nothing when they are not UTF-8.
pub open spec fn url_decoded(s: Seq<char>) -> Option<Seq<char>> {
    let b = percent_decode(encode_utf8(s));
    if valid_utf8(b) { Some(decode_utf8(b)) } else { None }
}

/// Percent-encodes `s` with `urlencoding::encode`.
#[verifier::external_body]
pub(crate) fn url_encode(s: &str) -> (r: String)
    ensures
        r@ == url_encoded(s@),
{
    urlencoding::encode(s).into_owned()
}

/// Percent-decodes `s` with `urlencoding::decode`; `None` when the bytes it
/// spells are not UTF-8.
#[verifier::external_body]
pub(crate) fn url_decode(s: &str) -> (r: Option<String>)
    ensures
        match r {
            Some(d) => url_decoded(s@) == Some(d@),
            None => url_decoded(s@) is None,
        },
{
    match urlencoding::decode(s) {
        Ok(d) => Some(d.into_owned()),
        Err(_) => None,
    }
}

/// Lower-case hexadecimal digit of a value below 16.
pub open spec fn hex_lower(d: u32) -> char {
    if d < 10 { (48 + d) as char } else { (87 + d) as char }
}

/// How a character stands inside a JSON string literal written by `serde_json`.
pub open spec fn json_escape(c: char) -> Seq<char> {
    if c == '"' {
        seq!['\\', '"']
    } else if c == '\\' {
        seq!['\\', '\\']
    } else if c == '\u{8}' {
        seq!['\\', 'b']
    } else if c == '\t' {
        seq!['\\', 't']
    } else if c == '\n' {
        seq!['\\', 'n']
    } else if c == '\u{c}' {
        seq!['\\', 'f']
    } else if c == '\r' {
        seq!['\\', 'r']
    } else if (c as u32) < 32 {
        seq!['\\', 'u', '0', '0', hex_lower((c as u32) / 16), hex_lower((c as u32) % 16)]
    } else {
        seq![c]
    }
}

/// The escaped characters of a string.
pub open spec fn json_escaped(s: Seq<char>) -> Seq<char>
    decreases s.len(),
{
    if s.len() == 0 {
        seq![]
    } else {
        json_escape(s[0]) + json_escaped(s.drop_first())
    }
}

/// The JSON string literal for `s`.
pub open spec fn json_string_literal(s: Seq<char>) -> Seq<char> {
    seq!['"'] + json_escaped(s) + seq!['"']
}

/// The JSON text of a string (`serde_json::to_string` on a `&str`): the text
/// between double quotes, with `"` and `\` escaped by a backslash, the control
/// characters that have a short escape (`\b \t \n \f \r`) written so, and the
/// other characters below U+0020 written `\u00xx` in lower-case hexadecimal.
/// Serialising a string slice into memory cannot fail, so the error arm is never taken.
#[verifier::external_body]
pub(crate) fn json_quote(s: &str) -> (r: String)
    ensures
        r@ == json_string_literal(s@),
{
    match serde_json::to_string(s) {
        Ok(t) => t,
        Err(_) => String::new(),
    }
}


proof fn lemma_percent_encode_ascii(bytes: Seq<u8>)
    ensures
        forall|i: int| 0 <= i < percent_encode(bytes).len() ==> #[trigger] percent_encode(bytes)[i] < 128,
    decreases bytes.len(),
{
    if bytes.len() > 0 {
        lemma_percent_encode_ascii(bytes.drop_first());
        let b = bytes[0];
        let head: Seq<u8> = if is_unreserved(b) { seq![b] } else { seq![37u8, hex_upper(b / 16), hex_upper(b % 16)] };
        assert(percent_encode(bytes) == head + percent_encode(bytes.drop_first()));
        assert forall|i: int| 0 <= i < percent_encode(bytes).len() implies #[trigger] percent_encode(bytes)[i] < 128 by {
            if i >= head.len() {
                assert(percent_encode(bytes)[i] == percent_encode(bytes.drop_first())[i - head.len()]);
            }
        }
    }
}

proof fn lemma_percent_decode_encode(bytes: Seq<u8>)
    ensures
        percent_decode(percent_encode(bytes)) == bytes,
    decreases bytes.len(),
{
    if bytes.len() > 0 {
        let b = bytes[0];
        let rest = percent_encode(bytes.drop_first());
        lemma_percent_decode_encode(bytes.drop_first());
        let e = percent_encode(bytes);
        if is_unreserved(b) {
            assert(e == seq![b] + rest);
            assert(e.drop_first() =~= rest);
        } else {
            let h = hex_upper(b / 16);
            let l = hex_upper(b % 16);
            assert(e == seq![37u8, h, l] + rest);
            assert(e.skip(3) =~= rest);
            assert(hex_value(h) == Some((b / 16) as u8));
            assert(hex_value(l) == Some((b % 16) as u8));
        }
        assert(percent_decode(e) =~= bytes);
    }
}

/// Percent-decoding gives back what percent-encoding was given: for every text
/// `s`, decoding the encoding of `s` succeeds and yields `s`.
pub proof fn law_url_decode_inverts_encode(s: Seq<char>)
    ensures
        url_decoded(url_encoded(s)) == Some(s),
{
    let bytes = encode_utf8(s);
    let enc = percent_encode(bytes);
    let chars = enc.map_values(|b: u8| b as char);
    lemma_percent_encode_ascii(bytes);
    assert(is_ascii_chars(chars)) by {
        assert forall|i| 0 <= i < chars.len() implies '\0' <= #[trigger] chars[i] <= '\u{7f}' by {
            assert(enc[i] < 128);
        }
    }
    is_ascii_chars_encode_utf8(chars);
    assert(encode_utf8(chars) =~= enc);
    lemma_percent_decode_encode(bytes);
    encode_utf8_valid_utf8(s);
    encode_utf8_decode_utf8(s);
}

}
