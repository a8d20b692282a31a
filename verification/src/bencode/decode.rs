//! Decoding bencode.
use vstd::prelude::*;
use vstd::slice::{slice_subrange, slice_to_vec};

use super::dict::insert_entry;
use super::laws::lemma_parse_wf;
use super::grammar::{
    find_byte, int_error_reason, lemma_find_byte, lemma_parse_consumes, lemma_scan_bounds, scan_decimal,
    spec_decode, spec_dict_items, spec_list_items, spec_parse, spec_parse_integer,
    spec_parse_length, IntErrorKind, COLON, DICT_START, END, INT_START, LIST_START, MINUS, NINE,
    PLUS, ZERO,
};
use super::model::{
    entries_of, terms_of, wf_term, BencodeParseError, BencodeValue, ByteString,
    Failure, Term,
};
use crate::text::str_from_utf8;

verus! {

/// What `parse_value` owes on input `s`: the value that `spec_parse` reads
/// with the rest of the input after it, or the error that `spec_parse` gives.
pub open spec fn parse_result_matches(
    s: Seq<u8>,
    r: Result<(BencodeValue, &[u8]), BencodeParseError>,
) -> bool {
    match r {
        Ok((v, rest)) => {
            &&& rest@.len() <= s.len()
            &&& rest@ == s.skip(s.len() - rest@.len())
            &&& spec_parse(s) == Ok::<(Term, int), Failure>((v@, s.len() - rest@.len()))
        },
        Err(e) => spec_parse(s) == Err::<(Term, int), Failure>(e@),
    }
}

/// Adds `k` to the number of bytes taken up in a successful result.
pub open spec fn offset<A>(r: Result<(A, int), Failure>, k: int) -> Result<(A, int), Failure> {
    match r {
        Ok((a, m)) => Ok((a, m + k)),
        Err(f) => Err(f),
    }
}

/// Decodes a whole input: a single value and nothing after it.
pub fn decode(input: &[u8]) -> (r: Result<BencodeValue, BencodeParseError>)
    ensures
        match r {
            Ok(v) => spec_decode(input@) == Ok::<Term, Failure>(v@),
            Err(e) => spec_decode(input@) == Err::<Term, Failure>(e@),
        },
        r matches Ok(v) ==> wf_term(v@),
{
    proof {
        lemma_parse_wf(input@);
    }
    match parse_value(input) {
        Ok((value, remainder)) => {
            if remainder.len() == 0 {
                Ok(value)
            } else {
                Err(BencodeParseError::TrailingData)
            }
        },
        Err(e) => Err(e),
    }
}

impl BencodeValue {
    /// Decodes a whole input, as `decode` does.
    pub fn from_bytes(input: &[u8]) -> (r: Result<BencodeValue, BencodeParseError>)
        ensures
            match r {
                Ok(v) => spec_decode(input@) == Ok::<Term, Failure>(v@),
                Err(e) => spec_decode(input@) == Err::<Term, Failure>(e@),
            },
            r matches Ok(v) ==> wf_term(v@),
    {
        decode(input)
    }
}

/// The index of the first `b` in `input`.
fn find_first(input: &[u8], b: u8) -> (r: Option<usize>)
    ensures
        match r {
            Some(i) => find_byte(input@, b) == Some(i as int),
            None => find_byte(input@, b) is None,
        },
{
    proof {
        lemma_find_byte(input@, b);
    }
    let mut i: usize = 0;
    while i < input.len()
        invariant
            i <= input.len(),
            forall|j: int| 0 <= j < i ==> input@[j] != b,
        decreases input.len() - i,
    {
        if input[i] == b {
            proof {
                lemma_find_byte(input@, b);
                let k = find_byte(input@, b).unwrap();
                if k < i {
                    assert(input@[k] != b);
                } else if k > i {
                    assert(input@[i as int] != b);
                }
            }
            return Some(i);
        }
        i += 1;
    }
    proof {
        lemma_find_byte(input@, b);
        if find_byte(input@, b) is Some {
            let k = find_byte(input@, b).unwrap();
            assert(input@[k] != b);
        }
    }
    None
}

/// Reads the decimal digits `d`, as `str::parse` reads an integer after its
/// sign: the first byte that is not a digit, or the first value outside
/// `min..=max`, stops it.
fn scan_digits(d: &[u8], negative: bool, min: i128, max: i128) -> (r: Result<i128, IntErrorKind>)
    requires
        i64::MIN <= min <= 0 <= max <= u64::MAX,
    ensures
        match r {
            Ok(x) => scan_decimal(d@, 0, negative, min as int, max as int) == Ok::<int, IntErrorKind>(
                x as int,
            ),
            Err(k) => scan_decimal(d@, 0, negative, min as int, max as int) == Err::<
                int,
                IntErrorKind,
            >(k),
        },
{
    let mut acc: i128 = 0;
    let mut i: usize = 0;
    assert(d@.skip(0) =~= d@);
    while i < d.len()
        invariant
            i <= d.len(),
            i64::MIN <= min <= 0 <= max <= u64::MAX,
            min <= acc <= max,
            scan_decimal(d@, 0, negative, min as int, max as int) == scan_decimal(
                d@.skip(i as int),
                acc as int,
                negative,
                min as int,
                max as int,
            ),
        decreases d.len() - i,
    {
        let c = d[i];
        assert(d@.skip(i as int)[0] == c);
        assert(d@.skip(i as int).drop_first() =~= d@.skip(i + 1));
        if !(ZERO <= c && c <= NINE) {
            return Err(IntErrorKind::InvalidDigit);
        }
        let digit = (c - ZERO) as i128;
        let next = if negative {
            acc * 10 - digit
        } else {
            acc * 10 + digit
        };
        if next > max {
            return Err(IntErrorKind::PosOverflow);
        }
        if next < min {
            return Err(IntErrorKind::NegOverflow);
        }
        acc = next;
        i += 1;
    }
    assert(d@.skip(i as int).len() == 0);
    Ok(acc)
}

/// The message of an integer error.
fn int_error_message(k: IntErrorKind) -> (s: String)
    ensures
        s@ == int_error_reason(k),
{
    match k {
        IntErrorKind::Empty => "cannot parse integer from empty string".to_owned(),
        IntErrorKind::InvalidDigit => "invalid digit found in string".to_owned(),
        IntErrorKind::PosOverflow => "number too large to fit in target type".to_owned(),
        IntErrorKind::NegOverflow => "number too small to fit in target type".to_owned(),
    }
}

/// Reads the length in front of a byte string.
fn parse_length(prefix: &[u8]) -> (r: Result<usize, BencodeParseError>)
    ensures
        match r {
            Ok(n) => spec_parse_length(prefix@) == Ok::<int, Failure>(n as int),
            Err(e) => spec_parse_length(prefix@) == Err::<int, Failure>(e@),
        },
{
    match str_from_utf8(prefix) {
        Err(e) => {
            return Err(BencodeParseError::InvalidUtf8(e));
        },
        Ok(_) => {},
    }
    if prefix.len() == 0 {
        return Err(
            BencodeParseError::InvalidInteger { reason: int_error_message(IntErrorKind::Empty) },
        );
    }
    proof {
        lemma_scan_bounds(prefix@, 0, false, 0, usize::MAX as int);
    }
    match scan_digits(prefix, false, 0, usize::MAX as i128) {
        Ok(n) => Ok(n as usize),
        Err(k) => Err(BencodeParseError::InvalidInteger { reason: int_error_message(k) }),
    }
}

/// Reads the body of an integer, between `i` and `e`.
fn parse_integer(input: &[u8]) -> (r: Result<i64, BencodeParseError>)
    ensures
        match r {
            Ok(x) => spec_parse_integer(input@) == Ok::<i64, Failure>(x),
            Err(e) => spec_parse_integer(input@) == Err::<i64, Failure>(e@),
        },
{
    if input.len() == 0 {
        return Err(BencodeParseError::InvalidInteger { reason: "empty string".to_owned() });
    }
    if input.len() >= 2 && input[0] == MINUS && input[1] == ZERO {
        return Err(BencodeParseError::InvalidInteger { reason: "no leading 0s".to_owned() });
    }
    if input[0] == PLUS {
        return Err(
            BencodeParseError::InvalidInteger { reason: "plus sign (+) not allowed".to_owned() },
        );
    }
    if input[0] == ZERO && input.len() > 1 {
        return Err(BencodeParseError::InvalidInteger { reason: "no leading 0s".to_owned() });
    }
    match str_from_utf8(input) {
        Err(e) => {
            return Err(BencodeParseError::InvalidUtf8(e));
        },
        Ok(_) => {},
    }
    if input[0] == MINUS && input.len() == 1 {
        return Err(
            BencodeParseError::InvalidInteger {
                reason: int_error_message(IntErrorKind::InvalidDigit),
            },
        );
    }
    let negative = input[0] == MINUS;
    let digits = if negative {
        slice_subrange(input, 1, input.len())
    } else {
        input
    };
    assert(negative ==> digits@ =~= input@.drop_first());
    proof {
        lemma_scan_bounds(digits@, 0, negative, i64::MIN as int, i64::MAX as int);
    }
    match scan_digits(digits, negative, i64::MIN as i128, i64::MAX as i128) {
        Ok(x) => Ok(x as i64),
        Err(k) => Err(BencodeParseError::InvalidInteger { reason: int_error_message(k) }),
    }
}

/// Reads the value at the front of `input` and hands back the rest of the
/// input after it.
pub fn parse_value(input: &[u8]) -> (r: Result<(BencodeValue, &[u8]), BencodeParseError>)
    ensures
        parse_result_matches(input@, r),
        r matches Ok((v, _)) ==> wf_term(v@),
    decreases input.len(), 1int,
{
    proof {
        lemma_parse_wf(input@);
    }
    if input.len() == 0 {
        return Err(BencodeParseError::UnexpectedEof);
    }
    let first = input[0];
    if ZERO <= first && first <= NINE {
        let colon_idx = match find_first(input, COLON) {
            Some(i) => i,
            None => {
                return Err(BencodeParseError::MissingDelimiter { delimiter: ':' });
            },
        };
        proof {
            lemma_find_byte(input@, COLON);
        }
        let prefix = slice_subrange(input, 0, colon_idx);
        assert(prefix@ =~= input@.take(colon_idx as int));
        let len = match parse_length(prefix) {
            Ok(n) => n,
            Err(e) => {
                return Err(e);
            },
        };
        if len > input.len() - (colon_idx + 1) {
            return Err(BencodeParseError::ShortInput);
        }
        let start = colon_idx + 1;
        let end = start + len;
        let bytes = slice_to_vec(slice_subrange(input, start, end));
        let rest = slice_subrange(input, end, input.len());
        assert(rest@ =~= input@.skip(end as int));
        Ok((BencodeValue::ByteString(bytes), rest))
    } else if first == INT_START {
        let end_idx = match find_first(input, END) {
            Some(i) => i,
            None => {
                return Err(BencodeParseError::MissingDelimiter { delimiter: 'e' });
            },
        };
        proof {
            lemma_find_byte(input@, END);
        }
        let body = slice_subrange(input, 1, end_idx);
        let rem = slice_subrange(input, end_idx + 1, input.len());
        assert(rem@ =~= input@.skip(end_idx + 1));
        match parse_integer(body) {
            Ok(x) => Ok((BencodeValue::Integer(x), rem)),
            Err(e) => Err(e),
        }
    } else if first == LIST_START {
        parse_list(input)
    } else if first == DICT_START {
        parse_dict(input)
    } else {
        Err(BencodeParseError::UnknownType(first as char))
    }
}

/// Reads a list, whose first byte is `l`.
fn parse_list(input: &[u8]) -> (r: Result<(BencodeValue, &[u8]), BencodeParseError>)
    requires
        input.len() > 0,
        input@[0] == LIST_START,
    ensures
        parse_result_matches(input@, r),
    decreases input.len(), 0int,
{
    let t = slice_subrange(input, 1, input.len());
    let ghost t0 = t@;
    assert(t0 =~= input@.drop_first());
    if t.len() > 0 && t[0] == END {
        let rest = slice_subrange(t, 1, t.len());
        assert(rest@ =~= input@.skip(2));
        assert(terms_of(Seq::<BencodeValue>::empty()) =~= Seq::<Term>::empty());
        return Ok((BencodeValue::List(Vec::new()), rest));
    }
    let mut cur = t;
    let mut items: Vec<BencodeValue> = Vec::new();
    assert(t0.skip(0) =~= t0);
    loop
        invariant
            input@.len() > 0,
            input@[0] == LIST_START,
            t0 =~= input@.drop_first(),
            !(t0.len() > 0 && t0[0] == END),
            cur@.len() <= t0.len(),
            cur@ == t0.skip(t0.len() - cur@.len()),
            spec_list_items(t0, seq![]) == offset(
                spec_list_items(cur@, terms_of(items@)),
                t0.len() - cur@.len(),
            ),
        decreases cur@.len(),
    {
        let ghost before = cur@;
        match parse_value(cur) {
            Ok((val, rem)) => {
                let ghost n = before.len() - rem@.len();
                proof {
                    lemma_parse_consumes(before);
                    assert(items@.push(val).drop_last() =~= items@);
                    assert(terms_of(items@.push(val)) == terms_of(items@).push(val@));
                    assert(t0.skip(t0.len() - before.len()).skip(n) =~= t0.skip(
                        t0.len() - rem@.len(),
                    ));
                }
                items.push(val);
                cur = rem;
                if cur.len() > 0 && cur[0] == END {
                    let rest = slice_subrange(cur, 1, cur.len());
                    assert(rest@ =~= input@.skip(input@.len() - rest@.len()));
                    return Ok((BencodeValue::List(items), rest));
                }
            },
            Err(_) => {
                return Err(BencodeParseError::InvalidListElement);
            },
        }
    }
}

/// Reads a dictionary, whose first byte is `d`.
fn parse_dict(input: &[u8]) -> (r: Result<(BencodeValue, &[u8]), BencodeParseError>)
    requires
        input.len() > 0,
        input@[0] == DICT_START,
    ensures
        parse_result_matches(input@, r),
    decreases input.len(), 0int,
{
    let t = slice_subrange(input, 1, input.len());
    let ghost t0 = t@;
    assert(t0 =~= input@.drop_first());
    if t.len() > 0 && t[0] == END {
        let rest = slice_subrange(t, 1, t.len());
        assert(rest@ =~= input@.skip(2));
        assert(entries_of(Seq::<(ByteString, BencodeValue)>::empty()) =~= Seq::<
            (Seq<u8>, Term),
        >::empty());
        return Ok((BencodeValue::Dict(Vec::new()), rest));
    }
    let mut cur = t;
    let mut dict: Vec<(ByteString, BencodeValue)> = Vec::new();
    assert(t0.skip(0) =~= t0);
    loop
        invariant
            input@.len() > 0,
            input@[0] == DICT_START,
            t0 =~= input@.drop_first(),
            !(t0.len() > 0 && t0[0] == END),
            cur@.len() <= t0.len(),
            cur@ == t0.skip(t0.len() - cur@.len()),
            spec_dict_items(t0, seq![]) == offset(
                spec_dict_items(cur@, entries_of(dict@)),
                t0.len() - cur@.len(),
            ),
        decreases cur@.len(),
    {
        let ghost before = cur@;
        proof {
            lemma_parse_consumes(before);
        }
        match parse_value(cur) {
            Ok((BencodeValue::ByteString(k), rem)) => {
                let ghost n1 = before.len() - rem@.len();
                let ghost mid = rem@;
                proof {
                    lemma_parse_consumes(mid);
                }
                match parse_value(rem) {
                    Ok((v, rem2)) => {
                        let ghost n2 = mid.len() - rem2@.len();
                        proof {
                            assert(before.skip(n1) =~= mid);
                            assert(mid.skip(n2) =~= rem2@);
                            assert(t0.skip(t0.len() - before.len()).skip(n1 + n2) =~= t0.skip(
                                t0.len() - rem2@.len(),
                            ));
                        }
                        insert_entry(&mut dict, k, v);
                        cur = rem2;
                        if cur.len() > 0 && cur[0] == END {
                            let rest = slice_subrange(cur, 1, cur.len());
                            assert(rest@ =~= input@.skip(input@.len() - rest@.len()));
                            return Ok((BencodeValue::Dict(dict), rest));
                        }
                    },
                    Err(_) => {
                        return Err(BencodeParseError::InvalidDictValue);
                    },
                }
            },
            _ => {
                return Err(BencodeParseError::InvalidDictKey);
            },
        }
    }
}

} // verus!
