//! Text conversions from std that the library leans on.
use vstd::prelude::*;
use vstd::string::StringSliceAdditionalSpecFns;
use vstd::utf8::{
    decode_first_codepoint, decode_utf8, is_ascii_chars, is_ascii_chars_encode_utf8,
    is_leading_byte_width_1, length_of_first_codepoint, pop_first_scalar, valid_first_scalar,
    valid_utf8,
};

verus! {

/// `std::str::from_utf8`. Its documentation: the result is `Ok` exactly when
/// `bytes` are valid UTF-8, and the string then holds the characters they
/// encode.
#[verifier::external_body]
pub(crate) fn str_from_utf8(bytes: &[u8]) -> (r: Result<&str, std::str::Utf8Error>)
    ensures
        r is Ok <==> valid_utf8(bytes@),
        r matches Ok(s) ==> s@ == decode_utf8(bytes@),
{
    std::str::from_utf8(bytes)
}

/// The text that `String::from_utf8_lossy` makes of `bytes`.
pub uninterp spec fn lossy_utf8(bytes: Seq<u8>) -> Seq<char>;

/// The text that `String::from_utf8_lossy` makes of `bytes`: the characters
/// they encode when they are valid UTF-8, and otherwise the text that
/// `lossy_utf8` names.
pub open spec fn utf8_text(bytes: Seq<u8>) -> Seq<char> {
    if valid_utf8(bytes) {
        decode_utf8(bytes)
    } else {
        lossy_utf8(bytes)
    }
}

/// `String::from_utf8_lossy`, made into an owned `String`. Its result is
/// named `lossy_utf8`; its documentation: valid UTF-8 comes through
/// unchanged, and each invalid sequence becomes U+FFFD. Which bytes make an
/// invalid sequence is left unstated.
#[verifier::external_body]
pub(crate) fn utf8_lossy(bytes: &[u8]) -> (r: String)
    ensures
        r@ == lossy_utf8(bytes@),
        valid_utf8(bytes@) ==> r@ == decode_utf8(bytes@),
        r@ == utf8_text(bytes@),
{
    String::from_utf8_lossy(bytes).into_owned()
}

/// Bytes below 128 are valid UTF-8: each is a character by itself.
pub proof fn lemma_ascii_valid_utf8(s: Seq<u8>)
    requires
        forall|i: int| 0 <= i < s.len() ==> s[i] < 128,
    ensures
        valid_utf8(s),
    decreases s.len(),
{
    if s.len() > 0 {
        let b = s[0];
        assert(b & 0x7f <= 0x7f) by (bit_vector);
        assert(is_leading_byte_width_1(b));
        assert(length_of_first_codepoint(s) == 1);
        assert(decode_first_codepoint(s) <= 0x7f);
        assert(valid_first_scalar(s));
        let rest = pop_first_scalar(s);
        assert(rest =~= s.drop_first());
        lemma_ascii_valid_utf8(rest);
    }
}

/// The bytes of an ASCII string are its characters, each below 128.
pub proof fn lemma_ascii_str_bytes(s: &str)
    requires
        is_ascii_chars(s@),
    ensures
        s.spec_bytes().len() == s@.len(),
        forall|i: int| 0 <= i < s@.len() ==> #[trigger] s.spec_bytes()[i] == s@[i] as u8,
        forall|i: int| 0 <= i < s@.len() ==> #[trigger] s.spec_bytes()[i] < 128,
{
    is_ascii_chars_encode_utf8(s@);
    assert forall|i: int| 0 <= i < s@.len() implies #[trigger] s.spec_bytes()[i] < 128 by {
        assert(s.spec_bytes()[i] == s@[i] as u8);
        assert('\0' <= s@[i] <= '\u{7f}');
    }
}

/// `String::from_utf8`, for bytes known to be valid UTF-8: its
/// documentation says the string then holds the characters they encode.
#[verifier::external_body]
pub(crate) fn string_from_utf8(bytes: Vec<u8>) -> (r: String)
    requires
        valid_utf8(bytes@),
    ensures
        r@ == decode_utf8(bytes@),
{
    String::from_utf8(bytes).unwrap_or_default()
}

} // verus!
