//! Percent-encoding of page and user names (the `urlencoding` crate), and
//! the file paths built from encoded names.
//!
//! A page is stored under the percent-encoding of its name and listed under
//! the decoding of that id; the law `lemma_decode_encode` states that the
//! name comes back.

use vstd::prelude::*;
use vstd::utf8::{decode_utf8, encode_utf8, encode_utf8_decode_utf8, encode_utf8_valid_utf8, valid_utf8};
use crate::text::{chars_of, concatenate};

verus! {

/// A byte that `urlencoding::encode` writes as it is: ASCII letters and
/// digits, `-`, `.`, `_` and `~`.
pub open spec fn is_unreserved(b: u8) -> bool {
    ||| (48 <= b && b <= 57)
    ||| (65 <= b && b <= 90)
    ||| (97 <= b && b <= 122)
    ||| b == 45
    ||| b == 46
    ||| b == 95
    ||| b == 126
}

/// The upper-case hex digit (as an ASCII byte) of a value below 16.
pub open spec fn hex_upper(n: u8) -> u8 {
    if n < 10 {
        (48 + n) as u8
    } else {
        (55 + n) as u8
    }
}

/// An ASCII hex digit, either case.
pub open spec fn is_hex(b: u8) -> bool {
    (48 <= b && b <= 57) || (65 <= b && b <= 70) || (97 <= b && b <= 102)
}

/// The value of an ASCII hex digit.
pub open spec fn hex_value(b: u8) -> u8 {
    if 48 <= b && b <= 57 {
        (b - 48) as u8
    } else if 65 <= b && b <= 70 {
        (b - 55) as u8
    } else {
        (b - 87) as u8
    }
}

/// Percent-encoding of bytes: unreserved bytes as they are, every other
/// byte as `%` and two upper-case hex digits.
pub open spec fn percent_encode(b: Seq<u8>) -> Seq<u8>
    decreases b.len(),
{
    if b.len() == 0 {
        b
    } else {
        let x = b[0];
        let chunk = if is_unreserved(x) {
            seq![x]
        } else {
            seq![37u8, hex_upper(x >> 4u8), hex_upper(x & 15u8)]
        };
        chunk + percent_encode(b.skip(1))
    }
}

/// Percent-decoding of bytes: `%` followed by two hex digits (either case)
/// becomes the byte they denote; every other byte, a lone `%` included, is
/// kept.
pub open spec fn percent_decode(b: Seq<u8>) -> Seq<u8>
    decreases b.len(),
{
    if b.len() == 0 {
        b
    } else if b[0] == 37 && b.len() >= 3 && is_hex(b[1]) && is_hex(b[2]) {
        seq![(hex_value(b[1]) * 16 + hex_value(b[2])) as u8] + percent_decode(b.skip(3))
    } else {
        seq![b[0]] + percent_decode(b.skip(1))
    }
}

/// The UTF-8 bytes of the encoding of `s`.
pub open spec fn encoded_bytes(s: Seq<char>) -> Seq<u8> {
    percent_encode(encode_utf8(s))
}

/// The bytes that decoding `s` produces.
pub open spec fn decoded_bytes(s: Seq<char>) -> Seq<u8> {
    percent_decode(encode_utf8(s))
}

/// Decoding `s` gives text: its percent-decoded bytes are valid UTF-8.
pub open spec fn decodable(s: Seq<char>) -> bool {
    valid_utf8(decoded_bytes(s))
}

/// The text that decoding `s` gives (when `decodable(s)`).
pub open spec fn url_decoded(s: Seq<char>) -> Seq<char> {
    decode_utf8(decoded_bytes(s))
}

/// The error `urlencoding::decode` reports when the decoded bytes are not
/// UTF-8.
#[verifier::external_type_specification]
#[verifier::external_body]
pub struct ExFromUtf8Error(std::string::FromUtf8Error);

/// `urlencoding::encode`: the string whose UTF-8 bytes are the
/// percent-encoding of the UTF-8 bytes of `s`.
#[verifier::external_body]
pub(crate) fn encode(s: &str) -> (r: String)
    ensures
        encode_utf8(r@) == encoded_bytes(s@),
{
    urlencoding::encode(s).into_owned()
}

/// `urlencoding::decode`: the string whose UTF-8 bytes are the
/// percent-decoded bytes of `s`, or the UTF-8 error when those bytes are not
/// valid UTF-8.
#[verifier::external_body]
fn decode_raw(s: &str) -> (r: Result<String, std::string::FromUtf8Error>)
    ensures
        r is Ok <==> decodable(s@),
        r matches Ok(t) ==> encode_utf8(t@) == decoded_bytes(s@),
{
    urlencoding::decode(s).map(|c| c.into_owned())
}

/// Decodes a percent-encoded name; `None` when the decoded bytes are not
/// UTF-8.
pub fn decode(s: &str) -> (r: Option<String>)
    ensures
        r is Some <==> decodable(s@),
        r matches Some(t) ==> t@ == url_decoded(s@),
{
    match decode_raw(s) {
        Ok(t) => {
            proof {
                encode_utf8_decode_utf8(t@);
            }
            Some(t)
        },
        Err(_) => None,
    }
}

/// Decodes a percent-encoded name that is known to decode.
pub fn decode_name(s: &str) -> (t: String)
    requires
        decodable(s@),
    ensures
        t@ == url_decoded(s@),
{
    decode(s).unwrap()
}

/// The encoding of a text is ASCII made of unreserved bytes, `%` and hex
/// digits; decoding it gives the bytes back.
proof fn lemma_percent_roundtrip(b: Seq<u8>)
    ensures
        percent_decode(percent_encode(b)) == b,
    decreases b.len(),
{
    if b.len() > 0 {
        let x = b[0];
        lemma_percent_roundtrip(b.skip(1));
        let rest = percent_encode(b.skip(1));
        let e = percent_encode(b);
        if is_unreserved(x) {
            assert(e == seq![x] + rest);
            assert(e[0] == x);
            assert(e.skip(1) =~= rest);
            assert(percent_decode(e) =~= seq![x] + percent_decode(rest));
        } else {
            let hi = x >> 4u8;
            let lo = x & 15u8;
            assert(hi < 16 && lo < 16 && hi * 16 + lo == x) by (bit_vector)
                requires
                    hi == x >> 4u8,
                    lo == x & 15u8,
            ;
            assert(e == seq![37u8, hex_upper(hi), hex_upper(lo)] + rest);
            assert(e[0] == 37 && e[1] == hex_upper(hi) && e[2] == hex_upper(lo));
            assert(e.skip(3) =~= rest);
            assert(percent_decode(e) =~= seq![x] + percent_decode(rest));
        }
        assert(seq![x] + b.skip(1) =~= b);
    }
}

/// Decoding the encoding of a name gives the name back.
pub proof fn lemma_decode_encode(name: Seq<char>, id: Seq<char>)
    requires
        encode_utf8(id) == encoded_bytes(name),
    ensures
        decodable(id),
        url_decoded(id) == name,
{
    lemma_percent_roundtrip(encode_utf8(name));
    encode_utf8_decode_utf8(id);
    assert(decoded_bytes(id) == encode_utf8(name));
    encode_utf8_valid_utf8(name);
    encode_utf8_decode_utf8(name);
}

/// The path `root/encode(filename)`: `Path::new(root).join(encoded)` for the
/// encoded name, which holds no `/`.
pub open spec fn joined_path(root: Seq<char>, name: Seq<char>) -> Seq<char> {
    if root.len() == 0 {
        name
    } else if root.last() == '/' {
        root + name
    } else {
        root + seq!['/'] + name
    }
}

/// The file path of `filename` under `root`: the directory joined with the
/// percent-encoded file name.
pub fn get_path(root_dir: &str, filename: &str) -> (path: String)
    ensures
        exists|enc: Seq<char>|
            encode_utf8(enc) == encoded_bytes(filename@) && path@ == joined_path(root_dir@, enc),
{
    let encoded = encode(filename);
    let r = chars_of(root_dir);
    if r.len() == 0 {
        encoded
    } else if r[r.len() - 1] == '/' {
        concatenate(root_dir, encoded.as_str())
    } else {
        let dir = concatenate(root_dir, "/");
        proof {
            reveal_strlit("/");
        }
        concatenate(dir.as_str(), encoded.as_str())
    }
}

} // verus!
