//! What decoding a byte sequence yields, and what encoding a term yields.
use vstd::prelude::*;
use vstd::utf8::valid_utf8;

use super::model::{dict_insert, Failure, Term};

verus! {

pub const ZERO: u8 = 48;
pub const NINE: u8 = 57;
pub const COLON: u8 = 58;
pub const MINUS: u8 = 45;
pub const PLUS: u8 = 43;
/// The byte that ends an integer, a list or a dictionary: `e`.
pub const END: u8 = 101;
/// The byte that starts an integer: `i`.
pub const INT_START: u8 = 105;
/// The byte that starts a list: `l`.
pub const LIST_START: u8 = 108;
/// The byte that starts a dictionary: `d`.
pub const DICT_START: u8 = 100;

pub open spec fn is_digit(b: u8) -> bool {
    ZERO <= b <= NINE
}

/// The index of the first occurrence of `b` in `s`.
pub open spec fn find_byte(s: Seq<u8>, b: u8) -> Option<int>
    decreases s.len(),
{
    if s.len() == 0 {
        None
    } else if s[0] == b {
        Some(0)
    } else {
        match find_byte(s.drop_first(), b) {
            Some(i) => Some(i + 1),
            None => None,
        }
    }
}

/// The ways in which reading a decimal integer can fail.
#[derive(Debug, Clone, Copy, PartialEq, Eq, Structural)]
pub enum IntErrorKind {
    Empty,
    InvalidDigit,
    PosOverflow,
    NegOverflow,
}

/// The message that goes with each kind of integer error.
pub open spec fn int_error_reason(k: IntErrorKind) -> Seq<char> {
    match k {
        IntErrorKind::Empty => "cannot parse integer from empty string"@,
        IntErrorKind::InvalidDigit => "invalid digit found in string"@,
        IntErrorKind::PosOverflow => "number too large to fit in target type"@,
        IntErrorKind::NegOverflow => "number too small to fit in target type"@,
    }
}

/// Reads the digits `d` from left to right into the accumulator `acc`,
/// within the bounds `min..=max`. Each step either stops at a byte that is
/// not a digit, or at a value out of bounds, or goes on with
/// `acc * 10 + digit` (`acc * 10 - digit` for a negative number).
pub open spec fn scan_decimal(d: Seq<u8>, acc: int, negative: bool, min: int, max: int) -> Result<
    int,
    IntErrorKind,
>
    decreases d.len(),
{
    if d.len() == 0 {
        Ok(acc)
    } else if !is_digit(d[0]) {
        Err(IntErrorKind::InvalidDigit)
    } else {
        let digit = d[0] - ZERO;
        let next = if negative {
            acc * 10 - digit
        } else {
            acc * 10 + digit
        };
        if next > max {
            Err(IntErrorKind::PosOverflow)
        } else if next < min {
            Err(IntErrorKind::NegOverflow)
        } else {
            scan_decimal(d.drop_first(), next, negative, min, max)
        }
    }
}

/// The length in front of a byte string: the bytes before the colon, read as
/// an unsigned decimal number.
pub open spec fn spec_parse_length(prefix: Seq<u8>) -> Result<int, Failure> {
    if !valid_utf8(prefix) {
        Err(Failure::InvalidUtf8)
    } else if prefix.len() == 0 {
        Err(Failure::InvalidInteger(int_error_reason(IntErrorKind::Empty)))
    } else {
        match scan_decimal(prefix, 0, false, 0, usize::MAX as int) {
            Ok(n) => Ok(n),
            Err(k) => Err(Failure::InvalidInteger(int_error_reason(k))),
        }
    }
}

/// The integer between `i` and `e`.
pub open spec fn spec_parse_integer(body: Seq<u8>) -> Result<i64, Failure> {
    if body.len() == 0 {
        Err(Failure::InvalidInteger("empty string"@))
    } else if body.len() >= 2 && body[0] == MINUS && body[1] == ZERO {
        Err(Failure::InvalidInteger("no leading 0s"@))
    } else if body[0] == PLUS {
        Err(Failure::InvalidInteger("plus sign (+) not allowed"@))
    } else if body[0] == ZERO && body.len() > 1 {
        Err(Failure::InvalidInteger("no leading 0s"@))
    } else if !valid_utf8(body) {
        Err(Failure::InvalidUtf8)
    } else if body[0] == MINUS && body.len() == 1 {
        Err(Failure::InvalidInteger(int_error_reason(IntErrorKind::InvalidDigit)))
    } else {
        let negative = body[0] == MINUS;
        let digits = if negative {
            body.drop_first()
        } else {
            body
        };
        match scan_decimal(digits, 0, negative, i64::MIN as int, i64::MAX as int) {
            Ok(x) => Ok(x as i64),
            Err(k) => Err(Failure::InvalidInteger(int_error_reason(k))),
        }
    }
}

/// The value at the front of `s`, with the number of bytes it takes up.
pub open spec fn spec_parse(s: Seq<u8>) -> Result<(Term, int), Failure>
    decreases s.len(), 0int,
{
    if s.len() == 0 {
        Err(Failure::UnexpectedEof)
    } else if is_digit(s[0]) {
        match find_byte(s, COLON) {
            None => Err(Failure::MissingDelimiter(':')),
            Some(c) => match spec_parse_length(s.take(c)) {
                Err(f) => Err(f),
                Ok(len) => if c + 1 + len > s.len() {
                    Err(Failure::ShortInput)
                } else {
                    Ok((Term::Bytes(s.subrange(c + 1, c + 1 + len)), c + 1 + len))
                },
            },
        }
    } else if s[0] == INT_START {
        match find_byte(s, END) {
            None => Err(Failure::MissingDelimiter('e')),
            Some(e) => match spec_parse_integer(s.subrange(1, e)) {
                Ok(x) => Ok((Term::Int(x), e + 1)),
                Err(f) => Err(f),
            },
        }
    } else if s[0] == LIST_START {
        let t = s.drop_first();
        if t.len() > 0 && t[0] == END {
            Ok((Term::List(seq![]), 2))
        } else {
            match spec_list_items(t, seq![]) {
                Ok((ts, m)) => Ok((Term::List(ts), m + 1)),
                Err(f) => Err(f),
            }
        }
    } else if s[0] == DICT_START {
        let t = s.drop_first();
        if t.len() > 0 && t[0] == END {
            Ok((Term::Dict(seq![]), 2))
        } else {
            match spec_dict_items(t, seq![]) {
                Ok((d, m)) => Ok((Term::Dict(d), m + 1)),
                Err(f) => Err(f),
            }
        }
    } else {
        Err(Failure::UnknownType(s[0] as char))
    }
}

/// The elements of a list, read after the `acc` already read, up to and
/// including the closing `e`; with the number of bytes they take up.
pub open spec fn spec_list_items(t: Seq<u8>, acc: Seq<Term>) -> Result<(Seq<Term>, int), Failure>
    decreases t.len(), 1int,
{
    match spec_parse(t) {
        Err(_) => Err(Failure::InvalidListElement),
        Ok((x, n)) => {
            let r = t.skip(n);
            if n <= 0 || n > t.len() {
                // never: a value takes up at least one byte of its input
                Err(Failure::InvalidListElement)
            } else if r.len() > 0 && r[0] == END {
                Ok((acc.push(x), n + 1))
            } else {
                match spec_list_items(r, acc.push(x)) {
                    Ok((xs, m)) => Ok((xs, n + m)),
                    Err(f) => Err(f),
                }
            }
        },
    }
}

/// The entries of a dictionary, put one by one into `acc`, up to and
/// including the closing `e`; with the number of bytes they take up.
pub open spec fn spec_dict_items(t: Seq<u8>, acc: Seq<(Seq<u8>, Term)>) -> Result<
    (Seq<(Seq<u8>, Term)>, int),
    Failure,
>
    decreases t.len(), 1int,
{
    match spec_parse(t) {
        Ok((Term::Bytes(k), n1)) => {
            let t2 = t.skip(n1);
            if n1 <= 0 || n1 > t.len() {
                // never: a value takes up at least one byte of its input
                Err(Failure::InvalidDictKey)
            } else {
                match spec_parse(t2) {
                    Err(_) => Err(Failure::InvalidDictValue),
                    Ok((v, n2)) => {
                        let r = t2.skip(n2);
                        let d = dict_insert(acc, k, v);
                        if n2 <= 0 || n2 > t2.len() {
                            // never, as above
                            Err(Failure::InvalidDictValue)
                        } else if r.len() > 0 && r[0] == END {
                            Ok((d, n1 + n2 + 1))
                        } else {
                            match spec_dict_items(r, d) {
                                Ok((d2, m)) => Ok((d2, n1 + n2 + m)),
                                Err(f) => Err(f),
                            }
                        }
                    },
                }
            }
        },
        _ => Err(Failure::InvalidDictKey),
    }
}

/// The value that the whole of `s` encodes.
pub open spec fn spec_decode(s: Seq<u8>) -> Result<Term, Failure> {
    match spec_parse(s) {
        Ok((t, n)) => if n == s.len() {
            Ok(t)
        } else {
            Err(Failure::TrailingData)
        },
        Err(f) => Err(f),
    }
}

/// The decimal digits of `n`, without leading zeros.
pub open spec fn decimal(n: nat) -> Seq<u8>
    decreases n,
{
    if n < 10 {
        seq![(ZERO + n) as u8]
    } else {
        decimal(n / 10).push((ZERO + n % 10) as u8)
    }
}

/// The decimal text of an integer: `-` in front of a negative one.
pub open spec fn int_text(x: int) -> Seq<u8> {
    if x < 0 {
        seq![MINUS] + decimal((-x) as nat)
    } else {
        decimal(x as nat)
    }
}

/// The bencoding of a byte string: its length, a colon, and its bytes.
pub open spec fn encode_bytes(b: Seq<u8>) -> Seq<u8> {
    decimal(b.len()) + seq![COLON] + b
}

/// The bencoding of a term.
pub open spec fn spec_encode(t: Term) -> Seq<u8>
    decreases t,
{
    match t {
        Term::Int(x) => seq![INT_START] + int_text(x as int) + seq![END],
        Term::Bytes(b) => encode_bytes(b),
        Term::List(ts) => seq![LIST_START] + encode_terms(ts) + seq![END],
        Term::Dict(d) => seq![DICT_START] + encode_entries(d) + seq![END],
    }
}

/// The bencodings of the terms, one after the other.
pub open spec fn encode_terms(ts: Seq<Term>) -> Seq<u8>
    decreases ts,
{
    if ts.len() == 0 {
        Seq::empty()
    } else {
        encode_terms(ts.drop_last()) + spec_encode(ts.last())
    }
}

/// The bencodings of each key and its value, entry after entry.
pub open spec fn encode_entries(d: Seq<(Seq<u8>, Term)>) -> Seq<u8>
    decreases d,
{
    if d.len() == 0 {
        Seq::empty()
    } else {
        encode_entries(d.drop_last()) + encode_bytes(d.last().0) + spec_encode(d.last().1)
    }
}

/// `find_byte` finds the first occurrence, or reports that there is none.
pub proof fn lemma_find_byte(s: Seq<u8>, b: u8)
    ensures
        match find_byte(s, b) {
            Some(i) => 0 <= i < s.len() && s[i] == b && forall|j: int| 0 <= j < i ==> s[j] != b,
            None => forall|j: int| 0 <= j < s.len() ==> s[j] != b,
        },
    decreases s.len(),
{
    if s.len() > 0 && s[0] != b {
        lemma_find_byte(s.drop_first(), b);
        assert forall|j: int| 0 < j < s.len() implies s[j] == s.drop_first()[j - 1] by {}
    }
}

/// A successful scan stays within its bounds.
pub proof fn lemma_scan_bounds(d: Seq<u8>, acc: int, negative: bool, min: int, max: int)
    requires
        min <= acc <= max,
    ensures
        scan_decimal(d, acc, negative, min, max) matches Ok(x) ==> min <= x <= max,
    decreases d.len(),
{
    if d.len() > 0 && is_digit(d[0]) {
        let digit = d[0] - ZERO;
        let next = if negative {
            acc * 10 - digit
        } else {
            acc * 10 + digit
        };
        if min <= next <= max {
            lemma_scan_bounds(d.drop_first(), next, negative, min, max);
        }
    }
}

/// A value that decodes takes up at least one byte and no more than there are.
pub proof fn lemma_parse_consumes(s: Seq<u8>)
    ensures
        spec_parse(s) matches Ok((_, n)) ==> 1 <= n <= s.len(),
    decreases s.len(), 0int,
{
    lemma_find_byte(s, COLON);
    lemma_find_byte(s, END);
    if let Some(c) = find_byte(s, COLON) {
        lemma_scan_bounds(s.take(c), 0, false, 0, usize::MAX as int);
    }
    if s.len() > 0 && (s[0] == LIST_START || s[0] == DICT_START) {
        let t = s.drop_first();
        if !(t.len() > 0 && t[0] == END) {
            if s[0] == LIST_START {
                lemma_list_items_consume(t, seq![]);
            } else {
                lemma_dict_items_consume(t, seq![]);
            }
        }
    }
}

pub proof fn lemma_list_items_consume(t: Seq<u8>, acc: Seq<Term>)
    ensures
        spec_list_items(t, acc) matches Ok((_, m)) ==> 1 <= m <= t.len(),
    decreases t.len(), 1int,
{
    lemma_parse_consumes(t);
    if let Ok((x, n)) = spec_parse(t) {
        if 0 < n <= t.len() {
            lemma_list_items_consume(t.skip(n), acc.push(x));
        }
    }
}

pub proof fn lemma_dict_items_consume(t: Seq<u8>, acc: Seq<(Seq<u8>, Term)>)
    ensures
        spec_dict_items(t, acc) matches Ok((_, m)) ==> 1 <= m <= t.len(),
    decreases t.len(), 1int,
{
    lemma_parse_consumes(t);
    if let Ok((Term::Bytes(k), n1)) = spec_parse(t) {
        if 0 < n1 <= t.len() {
            let t2 = t.skip(n1);
            lemma_parse_consumes(t2);
            if let Ok((v, n2)) = spec_parse(t2) {
                if 0 < n2 <= t2.len() {
                    lemma_dict_items_consume(t2.skip(n2), dict_insert(acc, k, v));
                }
            }
        }
    }
}

} // verus!
