//! Random identifiers: version-4 UUIDs and their hyphenated text.

use vstd::prelude::*;
use crate::text::{is_ws, no_ws};

verus! {

/// The lower-case hexadecimal digits.
pub open spec fn hex_digits() -> Seq<char> {
    seq!['0', '1', '2', '3', '4', '5', '6', '7', '8', '9', 'a', 'b', 'c', 'd', 'e', 'f']
}

/// Position of the `d`-th hex digit (0 = most significant) in the hyphenated
/// form `xxxxxxxx-xxxx-xxxx-xxxx-xxxxxxxxxxxx`, given the text position `i`.
pub open spec fn digit_index(i: int) -> int {
    if i > 23 {
        i - 4
    } else if i > 18 {
        i - 3
    } else if i > 13 {
        i - 2
    } else if i > 8 {
        i - 1
    } else {
        i
    }
}

/// The hyphenated lower-case text of the UUID whose 128-bit value is `v`
/// (what `Uuid::from_u128(v).to_string()` writes).
pub open spec fn uuid_text(v: u128) -> Seq<char> {
    Seq::new(
        36,
        |i: int|
            if i == 8 || i == 13 || i == 18 || i == 23 {
                '-'
            } else {
                hex_digits()[((v >> ((124 - 4 * digit_index(i)) as u128)) & 15u128) as int]
            },
    )
}

/// The 128-bit value of a version-4 UUID: its version nibble (bits 76 to
/// 79) is 4 and its variant (bits 62 and 63) is `10`.
pub open spec fn is_v4_value(v: u128) -> bool {
    (v >> 76u128) & 15u128 == 4 && (v >> 62u128) & 3u128 == 2
}

/// Text that is the hyphenated form of a version-4 UUID.
pub open spec fn is_v4_uuid_text(s: Seq<char>) -> bool {
    exists|v: u128| is_v4_value(v) && s == uuid_text(v)
}

/// `uuid::Uuid::new_v4`: a fresh random version-4 UUID, as its 128-bit
/// value (`as_u128`, most significant byte first). Its bits come from the
/// operating system's random number generator; the version nibble (bits
/// 76 to 79) is 4 and the variant (bits 62 and 63) is `10`, as the crate
/// sets them. Nothing else is stated of the value.
#[verifier::external_body]
pub(crate) fn new_uuid_value() -> (r: u128)
    ensures
        is_v4_value(r),
{
    uuid::Uuid::new_v4().as_u128()
}

/// `uuid::Uuid::from_u128(v).to_string()`: the hyphenated lower-case form,
/// 32 hex digits of `v` from the most significant one, with `-` after the
/// 8th, 12th, 16th and 20th digit.
#[verifier::external_body]
pub(crate) fn uuid_string(v: u128) -> (s: String)
    ensures
        s@ == uuid_text(v),
{
    uuid::Uuid::from_u128(v).to_string()
}

/// A UUID text is non-empty and holds no whitespace.
pub proof fn lemma_uuid_text_no_ws(v: u128)
    ensures
        uuid_text(v).len() == 36,
        no_ws(uuid_text(v)),
{
    let s = uuid_text(v);
    assert forall|i: int| 0 <= i < s.len() implies !is_ws(#[trigger] s[i]) by {
        if !(i == 8 || i == 13 || i == 18 || i == 23) {
            let sh = (124 - 4 * digit_index(i)) as u128;
            let n = (v >> sh) & 15u128;
            assert(n < 16) by (bit_vector)
                requires
                    n == (v >> sh) & 15u128,
            ;
            lemma_hex_digit_not_ws(n as int);
        }
    }
}

/// No hex digit is whitespace.
proof fn lemma_hex_digit_not_ws(n: int)
    requires
        0 <= n < 16,
    ensures
        !is_ws(hex_digits()[n]),
{
    let h = hex_digits();
    assert(h[0] == '0' && h[1] == '1' && h[2] == '2' && h[3] == '3' && h[4] == '4' && h[5] == '5'
        && h[6] == '6' && h[7] == '7' && h[8] == '8' && h[9] == '9' && h[10] == 'a' && h[11]
        == 'b' && h[12] == 'c' && h[13] == 'd' && h[14] == 'e' && h[15] == 'f');
}

} // verus!
