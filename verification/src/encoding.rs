//! Hex and percent encodings, from the `hex` and `urlencoding` crates.
use vstd::prelude::*;

verus! {

/// The lowercase hex digit for `n` in `0..16`.
pub open spec fn hex_digit_lower(n: int) -> char {
    if n < 10 {
        (48 + n) as char
    } else {
        (97 + n - 10) as char
    }
}

/// Each byte as two lowercase hex digits, high half first.
pub open spec fn hex_lower(b: Seq<u8>) -> Seq<char> {
    Seq::new(
        2 * b.len(),
        |i: int|
            hex_digit_lower(
                if i % 2 == 0 {
                    b[i / 2] / 16
                } else {
                    b[i / 2] % 16
                } as int,
            ),
    )
}

/// `hex::encode`: its documentation says it encodes the data as a hex string
/// in lowercase characters, two per byte.
#[verifier::external_body]
pub(crate) fn hex_encode(data: &[u8]) -> (r: String)
    ensures
        r@ == hex_lower(data@),
{
    hex::encode(data)
}

/// The bytes that percent-encoding leaves as they are: ASCII letters and
/// digits, `-`, `.`, `_` and `~`.
pub open spec fn is_unreserved(b: u8) -> bool {
    (48 <= b <= 57) || (65 <= b <= 90) || (97 <= b <= 122) || b == 45 || b == 46 || b == 95
        || b == 126
}

/// The uppercase hex digit (an ASCII byte) for `n` in `0..16`.
pub open spec fn hex_digit_upper(n: int) -> u8 {
    if n < 10 {
        (48 + n) as u8
    } else {
        (65 + n - 10) as u8
    }
}

/// A byte, percent-encoded: itself if unreserved, else `%` and two
/// uppercase hex digits.
pub open spec fn percent_encode_byte(b: u8) -> Seq<u8> {
    if is_unreserved(b) {
        seq![b]
    } else {
        seq![37u8, hex_digit_upper((b / 16) as int), hex_digit_upper((b % 16) as int)]
    }
}

/// Each byte percent-encoded, in order.
pub open spec fn percent_encode(data: Seq<u8>) -> Seq<u8>
    decreases data.len(),
{
    if data.len() == 0 {
        Seq::empty()
    } else {
        percent_encode_byte(data[0]) + percent_encode(data.drop_first())
    }
}

/// `urlencoding::encode_binary`, as bytes. Its documentation: it
/// percent-encodes every byte except alphanumerics and `-`, `_`, `.`, `~`;
/// its source writes the escapes with uppercase hex digits.
#[verifier::external_body]
pub(crate) fn url_encode_binary(data: &[u8]) -> (r: Vec<u8>)
    ensures
        r@ == percent_encode(data@),
{
    urlencoding::encode_binary(data).into_owned().into_bytes()
}

} // verus!
