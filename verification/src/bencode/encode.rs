//! Encoding bencode.
use vstd::prelude::*;

use super::grammar::{
    decimal, encode_bytes, encode_entries, encode_terms, int_text, spec_encode, COLON, DICT_START,
    END, INT_START, LIST_START, MINUS, ZERO,
};
use super::model::{entries_of, terms_of, BencodeValue, ByteString, Term};

verus! {

/// Appends the decimal digits of `n`.
pub(crate) fn push_decimal(out: &mut Vec<u8>, n: u64)
    ensures
        final(out)@ == old(out)@ + decimal(n as nat),
    decreases n,
{
    if n >= 10 {
        push_decimal(out, n / 10);
    }
    out.push(ZERO + (n % 10) as u8);
    assert(final(out)@ =~= old(out)@ + decimal(n as nat));
}

/// Appends the decimal text of `x`.
fn push_int(out: &mut Vec<u8>, x: i64)
    ensures
        final(out)@ == old(out)@ + int_text(x as int),
{
    if x < 0 {
        out.push(MINUS);
        let magnitude = (0i128 - x as i128) as u64;
        push_decimal(out, magnitude);
        assert(final(out)@ =~= old(out)@ + int_text(x as int));
    } else {
        push_decimal(out, x as u64);
    }
}

/// Appends the bytes of `b`.
pub(crate) fn push_all(out: &mut Vec<u8>, b: &[u8])
    ensures
        final(out)@ == old(out)@ + b@,
{
    let ghost start = out@;
    let mut i: usize = 0;
    while i < b.len()
        invariant
            i <= b.len(),
            out@ == start + b@.take(i as int),
        decreases b.len() - i,
    {
        out.push(b[i]);
        i += 1;
        assert(out@ =~= start + b@.take(i as int));
    }
    assert(b@.take(b.len() as int) =~= b@);
}

/// Appends the bencoding of a byte string.
fn push_byte_string(out: &mut Vec<u8>, b: &[u8])
    ensures
        final(out)@ == old(out)@ + encode_bytes(b@),
{
    push_decimal(out, b.len() as u64);
    out.push(COLON);
    push_all(out, b);
    assert(final(out)@ =~= old(out)@ + encode_bytes(b@));
}

/// Appends the bencoding of `val`.
fn encode_into(val: &BencodeValue, out: &mut Vec<u8>)
    ensures
        final(out)@ == old(out)@ + spec_encode(val@),
    decreases val,
{
    let ghost start = out@;
    match val {
        BencodeValue::Integer(x) => {
            out.push(INT_START);
            push_int(out, *x);
            out.push(END);
            assert(out@ =~= start + spec_encode(val@));
        },
        BencodeValue::ByteString(s) => {
            push_byte_string(out, s.as_slice());
        },
        BencodeValue::List(items) => {
            out.push(LIST_START);
            encode_items_into(items, out);
            out.push(END);
            assert(out@ =~= start + spec_encode(val@));
        },
        BencodeValue::Dict(entries) => {
            out.push(DICT_START);
            encode_entries_into(entries, out);
            out.push(END);
            assert(out@ =~= start + spec_encode(val@));
        },
    }
}

/// Appends the bencodings of the items, one after the other.
fn encode_items_into(items: &Vec<BencodeValue>, out: &mut Vec<u8>)
    ensures
        final(out)@ == old(out)@ + encode_terms(terms_of(items@)),
    decreases items,
{
    let ghost start = out@;
    let mut i: usize = 0;
    assert(items@.take(0) =~= Seq::<BencodeValue>::empty());
    while i < items.len()
        invariant
            i <= items.len(),
            out@ == start + encode_terms(terms_of(items@.take(i as int))),
        decreases items.len() - i,
    {
        encode_into(&items[i], out);
        proof {
            let p = items@.take(i + 1);
            assert(p.drop_last() =~= items@.take(i as int));
            assert(p.last() == items@[i as int]);
            let ts = terms_of(p);
            assert(ts.drop_last() =~= terms_of(items@.take(i as int)));
        }
        i += 1;
        assert(out@ =~= start + encode_terms(terms_of(items@.take(i as int))));
    }
    assert(items@.take(i as int) =~= items@);
}

/// Appends the bencodings of the entries, each key before its value.
fn encode_entries_into(entries: &Vec<(ByteString, BencodeValue)>, out: &mut Vec<u8>)
    ensures
        final(out)@ == old(out)@ + encode_entries(entries_of(entries@)),
    decreases entries,
{
    let ghost start = out@;
    let mut i: usize = 0;
    assert(entries@.take(0) =~= Seq::<(ByteString, BencodeValue)>::empty());
    while i < entries.len()
        invariant
            i <= entries.len(),
            out@ == start + encode_entries(entries_of(entries@.take(i as int))),
        decreases entries.len() - i,
    {
        push_byte_string(out, entries[i].0.as_slice());
        encode_into(&entries[i].1, out);
        proof {
            let p = entries@.take(i + 1);
            assert(p.drop_last() =~= entries@.take(i as int));
            assert(p.last() == entries@[i as int]);
            let es = entries_of(p);
            assert(es.drop_last() =~= entries_of(entries@.take(i as int)));
        }
        i += 1;
        assert(out@ =~= start + encode_entries(entries_of(entries@.take(i as int))));
    }
    assert(entries@.take(i as int) =~= entries@);
}

/// The bencoding of a value.
pub fn encode(val: &BencodeValue) -> (r: Vec<u8>)
    ensures
        r@ == spec_encode(val@),
{
    let mut out: Vec<u8> = Vec::new();
    encode_into(val, &mut out);
    assert(out@ =~= spec_encode(val@));
    out
}

/// The bencoding of a dictionary with these entries.
pub fn encode_dict(entries: &Vec<(ByteString, BencodeValue)>) -> (r: Vec<u8>)
    ensures
        r@ == spec_encode(Term::Dict(entries_of(entries@))),
{
    let mut out: Vec<u8> = Vec::new();
    out.push(DICT_START);
    encode_entries_into(entries, &mut out);
    out.push(END);
    assert(out@ =~= spec_encode(Term::Dict(entries_of(entries@))));
    out
}

} // verus!
