//! What holds of decoding and encoding together.
use vstd::prelude::*;
use crate::text::lemma_ascii_valid_utf8;

use super::dict::{
    lemma_lex_lt_asymmetric, lemma_lex_lt_irreflexive, lemma_lex_lt_total, lemma_lex_lt_transitive,
};
use super::grammar::{
    decimal, encode_bytes, encode_entries, encode_terms, find_byte, int_text, is_digit,
    scan_decimal, spec_decode, spec_dict_items, spec_encode, spec_list_items, spec_parse,
    spec_parse_integer, spec_parse_length, COLON, DICT_START, END, INT_START, LIST_START, ZERO,
};
use super::model::{
    dict_get, dict_insert, entries_of, keys_sorted, lemma_entries_of, lemma_terms_of, lex_lt, term_of,
    terms_of, wf_term, BencodeValue, ByteString, Failure, Term,
};

verus! {

/// The decimal digits of a number: at least one, all digits, and a leading
/// `0` only for zero itself.
pub(crate) proof fn lemma_decimal(n: nat)
    ensures
        decimal(n).len() >= 1,
        forall|i: int| 0 <= i < decimal(n).len() ==> is_digit(#[trigger] decimal(n)[i]),
        decimal(n)[0] == ZERO ==> n == 0,
        n == 0 ==> decimal(n) == seq![ZERO],
    decreases n,
{
    if n >= 10 {
        lemma_decimal(n / 10);
        let d = decimal(n);
        assert(d[0] == decimal(n / 10)[0]);
        assert forall|i: int| 0 <= i < d.len() implies is_digit(#[trigger] d[i]) by {
            if i < d.len() - 1 {
                assert(d[i] == decimal(n / 10)[i]);
            }
        }
    }
}

/// Scanning one more byte goes on from where the scan of the rest stopped.
pub(crate) proof fn lemma_scan_push(d: Seq<u8>, c: u8, acc: int, negative: bool, min: int, max: int)
    ensures
        scan_decimal(d.push(c), acc, negative, min, max) == match scan_decimal(
            d,
            acc,
            negative,
            min,
            max,
        ) {
            Ok(v) => scan_decimal(seq![c], v, negative, min, max),
            Err(k) => Err(k),
        },
    decreases d.len(),
{
    if d.len() == 0 {
        assert(d.push(c) =~= seq![c]);
    } else {
        assert(d.push(c).drop_first() =~= d.drop_first().push(c));
        assert(d.push(c)[0] == d[0]);
        if is_digit(d[0]) {
            let digit = d[0] - ZERO;
            let next = if negative {
                acc * 10 - digit
            } else {
                acc * 10 + digit
            };
            lemma_scan_push(d.drop_first(), c, next, negative, min, max);
        }
    }
}

/// Scanning the decimal digits of `n` gives `n` back (or `-n`, for a
/// negative number).
proof fn lemma_scan_decimal(n: nat, negative: bool, min: int, max: int)
    requires
        min <= 0 <= max,
        negative ==> -n >= min,
        !negative ==> n <= max,
    ensures
        scan_decimal(decimal(n), 0, negative, min, max) == Ok::<int, super::grammar::IntErrorKind>(
            if negative {
                -n
            } else {
                n as int
            },
        ),
    decreases n,
{
    let target: int = if negative {
        -n
    } else {
        n as int
    };
    if n < 10 {
        let s = decimal(n);
        assert(s == seq![(ZERO + n) as u8]);
        assert(s[0] - ZERO == n);
        assert(s.drop_first() =~= Seq::<u8>::empty());
        assert(scan_decimal(s.drop_first(), target, negative, min, max) == Ok::<int, super::grammar::IntErrorKind>(target));
    } else {
        lemma_scan_decimal(n / 10, negative, min, max);
        let c = (ZERO + n % 10) as u8;
        lemma_scan_push(decimal(n / 10), c, 0, negative, min, max);
        assert(decimal(n) == decimal(n / 10).push(c));
        let v: int = if negative {
            -(n / 10) as int
        } else {
            (n / 10) as int
        };
        assert(n == (n / 10) * 10 + n % 10);
        assert(c - ZERO == n % 10);
        assert(v * 10 + (if negative { -(c - ZERO) } else { c - ZERO }) == target);
        let s = seq![c];
        assert(s.drop_first() =~= Seq::<u8>::empty());
        assert(scan_decimal(s.drop_first(), target, negative, min, max) == Ok::<int, super::grammar::IntErrorKind>(target));
        assert(scan_decimal(s, v, negative, min, max) == Ok::<int, super::grammar::IntErrorKind>(target));
    }
}

/// The first occurrence of `b` is right after a prefix that does not hold it.
proof fn lemma_find_after(a: Seq<u8>, b: u8, rest: Seq<u8>)
    requires
        forall|i: int| 0 <= i < a.len() ==> a[i] != b,
    ensures
        find_byte(a + seq![b] + rest, b) == Some(a.len() as int),
    decreases a.len(),
{
    let s = a + seq![b] + rest;
    if a.len() > 0 {
        assert(s.drop_first() =~= a.drop_first() + seq![b] + rest);
        lemma_find_after(a.drop_first(), b, rest);
    }
}

/// The integer text of an `i64` reads back as that integer.
proof fn lemma_parse_int_text(x: i64)
    ensures
        spec_parse_integer(int_text(x as int)) == Ok::<i64, Failure>(x),
{
    let body = int_text(x as int);
    if x < 0 {
        let m = (-x) as nat;
        lemma_decimal(m);
        lemma_scan_decimal(m, true, i64::MIN as int, i64::MAX as int);
        assert(body.drop_first() =~= decimal(m));
        assert(body[1] == decimal(m)[0]);
        assert forall|i: int| 0 <= i < body.len() implies body[i] < 128 by {
            if i > 0 {
                assert(body[i] == decimal(m)[i - 1]);
            }
        }
        lemma_ascii_valid_utf8(body);
    } else {
        let m = x as nat;
        lemma_decimal(m);
        lemma_scan_decimal(m, false, i64::MIN as int, i64::MAX as int);
        assert forall|i: int| 0 <= i < body.len() implies body[i] < 128 by {
            assert(is_digit(decimal(m)[i]));
        }
        lemma_ascii_valid_utf8(body);
    }
}

/// The decimal length in front of a byte string reads back as that length.
proof fn lemma_parse_length_decimal(n: nat)
    requires
        n <= usize::MAX,
    ensures
        spec_parse_length(decimal(n)) == Ok::<int, Failure>(n as int),
{
    lemma_decimal(n);
    lemma_scan_decimal(n, false, 0, usize::MAX as int);
    let d = decimal(n);
    assert forall|i: int| 0 <= i < d.len() implies d[i] < 128 by {
        assert(is_digit(d[i]));
    }
    lemma_ascii_valid_utf8(d);
}

/// Every byte string in the term, dictionary keys included, is no longer
/// than a `usize` can count.
pub open spec fn bounded_term(t: Term) -> bool
    decreases t,
{
    match t {
        Term::Int(_) => true,
        Term::Bytes(b) => b.len() <= usize::MAX,
        Term::List(ts) => forall|i: int| 0 <= i < ts.len() ==> bounded_term(#[trigger] ts[i]),
        Term::Dict(d) => forall|i: int|
            0 <= i < d.len() ==> #[trigger] d[i].0.len() <= usize::MAX && bounded_term(d[i].1),
    }
}

/// An encoding is never empty and never starts with `e`.
proof fn lemma_encode_first(t: Term)
    ensures
        spec_encode(t).len() >= 1,
        spec_encode(t)[0] != END,
{
    if let Term::Bytes(b) = t {
        lemma_decimal(b.len());
        assert(spec_encode(t)[0] == decimal(b.len())[0]);
    }
}

/// The encoding of a sequence of terms, split after its first term.
proof fn lemma_encode_terms_front(ts: Seq<Term>)
    requires
        ts.len() > 0,
    ensures
        encode_terms(ts) == spec_encode(ts[0]) + encode_terms(ts.drop_first()),
    decreases ts.len(),
{
    if ts.len() == 1 {
        assert(ts.drop_last() =~= Seq::<Term>::empty());
        assert(ts.drop_first() =~= Seq::<Term>::empty());
        assert(encode_terms(ts) =~= spec_encode(ts[0]) + encode_terms(ts.drop_first()));
    } else {
        lemma_encode_terms_front(ts.drop_last());
        assert(ts.drop_last().drop_first() =~= ts.drop_first().drop_last());
        assert(ts.drop_first().last() == ts.last());
        assert(encode_terms(ts) =~= spec_encode(ts[0]) + encode_terms(ts.drop_first()));
    }
}

/// The encoding of a sequence of entries, split after its first entry.
proof fn lemma_encode_entries_front(d: Seq<(Seq<u8>, Term)>)
    requires
        d.len() > 0,
    ensures
        encode_entries(d) == encode_bytes(d[0].0) + spec_encode(d[0].1) + encode_entries(
            d.drop_first(),
        ),
    decreases d.len(),
{
    if d.len() == 1 {
        assert(d.drop_last() =~= Seq::<(Seq<u8>, Term)>::empty());
        assert(d.drop_first() =~= Seq::<(Seq<u8>, Term)>::empty());
        assert(encode_entries(d) =~= encode_bytes(d[0].0) + spec_encode(d[0].1) + encode_entries(
            d.drop_first(),
        ));
    } else {
        lemma_encode_entries_front(d.drop_last());
        assert(d.drop_last().drop_first() =~= d.drop_first().drop_last());
        assert(d.drop_first().last() == d.last());
        assert(encode_entries(d) =~= encode_bytes(d[0].0) + spec_encode(d[0].1) + encode_entries(
            d.drop_first(),
        ));
    }
}

/// Putting in a key greater than every key present appends the entry.
pub(crate) proof fn lemma_dict_insert_greatest(acc: Seq<(Seq<u8>, Term)>, k: Seq<u8>, v: Term)
    requires
        forall|i: int| 0 <= i < acc.len() ==> lex_lt(#[trigger] acc[i].0, k),
    ensures
        dict_insert(acc, k, v) == acc.push((k, v)),
    decreases acc.len(),
{
    if acc.len() > 0 {
        lemma_lex_lt_irreflexive(k);
        lemma_lex_lt_asymmetric(acc[0].0, k);
        lemma_dict_insert_greatest(acc.drop_first(), k, v);
        assert(seq![acc[0]] + acc.drop_first().push((k, v)) =~= acc.push((k, v)));
    } else {
        assert(seq![(k, v)] =~= acc.push((k, v)));
    }
}

/// A byte string reads back from its encoding, whatever follows it.
proof fn lemma_parse_encode_bytes(b: Seq<u8>, r: Seq<u8>)
    requires
        b.len() <= usize::MAX,
    ensures
        spec_parse(encode_bytes(b) + r) == Ok::<(Term, int), Failure>(
            (Term::Bytes(b), encode_bytes(b).len() as int),
        ),
{
    let s = encode_bytes(b) + r;
    let d = decimal(b.len());
    lemma_decimal(b.len());
    assert(s =~= d + seq![COLON] + (b + r));
    assert forall|i: int| 0 <= i < d.len() implies d[i] != COLON by {
        assert(is_digit(d[i]));
    }
    lemma_find_after(d, COLON, b + r);
    assert(s.take(d.len() as int) =~= d);
    lemma_parse_length_decimal(b.len());
    assert(s[0] == d[0]);
    assert(s.subrange(d.len() + 1 as int, d.len() + 1 + b.len() as int) =~= b);
}

/// The entries that come after the first one keep the conditions of
/// `lemma_parse_entries`, with the first entry added to those read.
proof fn lemma_entries_step(d: Seq<(Seq<u8>, Term)>, acc: Seq<(Seq<u8>, Term)>)
    requires
        d.len() > 0,
        keys_sorted(d),
        forall|i: int|
            0 <= i < d.len() ==> #[trigger] d[i].0.len() <= usize::MAX && wf_term(d[i].1)
                && bounded_term(d[i].1),
        forall|i: int, j: int|
            0 <= i < acc.len() && 0 <= j < d.len() ==> lex_lt(#[trigger] acc[i].0, #[trigger] d[j].0),
    ensures
        ({
            let rest = d.drop_first();
            let acc2 = acc.push(d[0]);
            &&& keys_sorted(rest)
            &&& forall|i: int|
                0 <= i < rest.len() ==> #[trigger] rest[i].0.len() <= usize::MAX && wf_term(
                    rest[i].1,
                ) && bounded_term(rest[i].1)
            &&& forall|i: int, j: int|
                0 <= i < acc2.len() && 0 <= j < rest.len() ==> lex_lt(
                    #[trigger] acc2[i].0,
                    #[trigger] rest[j].0,
                )
            &&& forall|i: int| 0 <= i < acc.len() ==> lex_lt(#[trigger] acc[i].0, d[0].0)
        }),
{
    let rest = d.drop_first();
    let acc2 = acc.push(d[0]);
    assert forall|i: int, j: int|
        0 <= i < acc2.len() && 0 <= j < rest.len() implies lex_lt(
        #[trigger] acc2[i].0,
        #[trigger] rest[j].0,
    ) by {
        assert(rest[j] == d[j + 1]);
        if i < acc.len() {
            assert(lex_lt(acc[i].0, d[j + 1].0));
        } else {
            assert(lex_lt(d[0].0, d[j + 1].0));
        }
    }
    assert forall|i: int, j: int| 0 <= i < j < rest.len() implies lex_lt(
        #[trigger] rest[i].0,
        #[trigger] rest[j].0,
    ) by {
        assert(lex_lt(d[i + 1].0, d[j + 1].0));
    }
    assert forall|i: int| 0 <= i < rest.len() implies #[trigger] rest[i].0.len() <= usize::MAX
        && wf_term(rest[i].1) && bounded_term(rest[i].1) by {
        assert(rest[i] == d[i + 1]);
    }
    assert forall|i: int| 0 <= i < acc.len() implies lex_lt(#[trigger] acc[i].0, d[0].0) by {
        assert(lex_lt(acc[i].0, d[0].0));
    }
}

/// A well-formed term reads back from its encoding, whatever follows it.
proof fn lemma_parse_encode(t: Term, r: Seq<u8>)
    requires
        wf_term(t),
        bounded_term(t),
    ensures
        spec_parse(spec_encode(t) + r) == Ok::<(Term, int), Failure>(
            (t, spec_encode(t).len() as int),
        ),
    decreases t,
{
    let e = spec_encode(t);
    let s = e + r;
    match t {
        Term::Int(x) => {
            let a = seq![INT_START] + int_text(x as int);
            assert(s =~= a + seq![END] + r);
            lemma_parse_int_text(x);
            if x < 0 {
                lemma_decimal((-x) as nat);
                assert forall|i: int| 0 <= i < a.len() implies a[i] != END by {
                    if i >= 2 {
                        assert(a[i] == decimal((-x) as nat)[i - 2]);
                        assert(is_digit(decimal((-x) as nat)[i - 2]));
                    }
                }
            } else {
                lemma_decimal(x as nat);
                assert forall|i: int| 0 <= i < a.len() implies a[i] != END by {
                    if i >= 1 {
                        assert(a[i] == decimal(x as nat)[i - 1]);
                        assert(is_digit(decimal(x as nat)[i - 1]));
                    }
                }
            }
            lemma_find_after(a, END, r);
            assert(s.subrange(1, a.len() as int) =~= int_text(x as int));
        },
        Term::Bytes(b) => {
            lemma_parse_encode_bytes(b, r);
        },
        Term::List(ts) => {
            let tail = s.drop_first();
            assert(tail =~= encode_terms(ts) + seq![END] + r);
            if ts.len() == 0 {
                assert(ts =~= Seq::<Term>::empty());
            } else {
                lemma_encode_terms_front(ts);
                lemma_encode_first(ts[0]);
                assert(tail[0] == spec_encode(ts[0])[0]);
                lemma_parse_items(ts, seq![], r);
                assert(seq![] + ts =~= ts);
            }
        },
        Term::Dict(d) => {
            let tail = s.drop_first();
            assert(tail =~= encode_entries(d) + seq![END] + r);
            if d.len() == 0 {
                assert(d =~= Seq::<(Seq<u8>, Term)>::empty());
            } else {
                lemma_encode_entries_front(d);
                lemma_decimal(d[0].0.len());
                assert(tail[0] == decimal(d[0].0.len())[0]);
                lemma_parse_entries(d, seq![], r);
                assert(seq![] + d =~= d);
            }
        },
    }
}

/// The items of a list read back from their encodings, up to the closing `e`.
proof fn lemma_parse_items(ts: Seq<Term>, acc: Seq<Term>, r: Seq<u8>)
    requires
        ts.len() > 0,
        forall|i: int| 0 <= i < ts.len() ==> wf_term(#[trigger] ts[i]) && bounded_term(ts[i]),
    ensures
        spec_list_items(encode_terms(ts) + seq![END] + r, acc) == Ok::<(Seq<Term>, int), Failure>(
            (acc + ts, encode_terms(ts).len() + 1 as int),
        ),
    decreases ts,
{
    let x = ts[0];
    let rest = ts.drop_first();
    lemma_encode_terms_front(ts);
    let s = encode_terms(ts) + seq![END] + r;
    let tail = encode_terms(rest) + seq![END] + r;
    assert(s =~= spec_encode(x) + tail);
    lemma_parse_encode(x, tail);
    let n = spec_encode(x).len() as int;
    lemma_encode_first(x);
    assert(s.skip(n) =~= tail);
    if rest.len() == 0 {
        assert(encode_terms(rest) =~= Seq::<u8>::empty());
        assert(acc.push(x) =~= acc + ts);
    } else {
        lemma_encode_terms_front(rest);
        lemma_encode_first(rest[0]);
        assert(tail[0] == spec_encode(rest[0])[0]);
        lemma_parse_items(rest, acc.push(x), r);
        assert(acc.push(x) + rest =~= acc + ts);
    }
}

/// The entries of a dictionary with increasing keys read back from their
/// encodings, up to the closing `e`, after entries with smaller keys.
#[verifier::spinoff_prover]
#[verifier::rlimit(40)]
proof fn lemma_parse_entries(d: Seq<(Seq<u8>, Term)>, acc: Seq<(Seq<u8>, Term)>, r: Seq<u8>)
    requires
        d.len() > 0,
        keys_sorted(d),
        forall|i: int|
            0 <= i < d.len() ==> #[trigger] d[i].0.len() <= usize::MAX && wf_term(d[i].1)
                && bounded_term(d[i].1),
        forall|i: int, j: int|
            0 <= i < acc.len() && 0 <= j < d.len() ==> lex_lt(#[trigger] acc[i].0, #[trigger] d[j].0),
    ensures
        spec_dict_items(encode_entries(d) + seq![END] + r, acc) == Ok::<
            (Seq<(Seq<u8>, Term)>, int),
            Failure,
        >((acc + d, encode_entries(d).len() + 1 as int)),
    decreases d,
{
    let k = d[0].0;
    let v = d[0].1;
    let rest = d.drop_first();
    lemma_encode_entries_front(d);
    let s = encode_entries(d) + seq![END] + r;
    let tail = encode_entries(rest) + seq![END] + r;
    assert(s =~= encode_bytes(k) + (spec_encode(v) + tail));
    lemma_parse_encode_bytes(k, spec_encode(v) + tail);
    let n1 = encode_bytes(k).len() as int;
    assert(s.skip(n1) =~= spec_encode(v) + tail);
    lemma_parse_encode(v, tail);
    let n2 = spec_encode(v).len() as int;
    lemma_encode_first(v);
    assert((spec_encode(v) + tail).skip(n2) =~= tail);
    lemma_entries_step(d, acc);
    lemma_dict_insert_greatest(acc, k, v);
    assert(d[0] == (k, v));
    if rest.len() == 0 {
        assert(encode_entries(rest) =~= Seq::<u8>::empty());
        assert(acc.push((k, v)) =~= acc + d);
    } else {
        lemma_encode_entries_front(rest);
        lemma_decimal(rest[0].0.len());
        assert(tail[0] == decimal(rest[0].0.len())[0]);
        lemma_parse_entries(rest, acc.push(d[0]), r);
        assert(acc.push(d[0]) + rest =~= acc + d);
    }
}

/// A value held in memory has no byte string longer than a `usize` counts.
proof fn lemma_value_bounded(v: BencodeValue)
    ensures
        bounded_term(v@),
    decreases v,
{
    match v {
        BencodeValue::List(items) => {
            lemma_values_bounded(items@);
            lemma_terms_of(items@);
            let ts = terms_of(items@);
            assert forall|i: int| 0 <= i < ts.len() implies bounded_term(#[trigger] ts[i]) by {
                assert(ts[i] == term_of(items@[i]));
            }
        },
        BencodeValue::Dict(entries) => {
            lemma_entries_bounded(entries@);
            lemma_entries_of(entries@);
            let d = entries_of(entries@);
            assert forall|i: int| 0 <= i < d.len() implies #[trigger] d[i].0.len() <= usize::MAX
                && bounded_term(d[i].1) by {
                assert(d[i] == (entries@[i].0@, term_of(entries@[i].1)));
            }
        },
        BencodeValue::ByteString(b) => {
            assert(b@.len() == b.len());
        },
        BencodeValue::Integer(_) => {},
    }
}

proof fn lemma_values_bounded(s: Seq<BencodeValue>)
    ensures
        forall|i: int| 0 <= i < s.len() ==> bounded_term(#[trigger] term_of(s[i])),
    decreases s,
{
    if s.len() > 0 {
        lemma_values_bounded(s.drop_last());
        lemma_value_bounded(s.last());
        assert forall|i: int| 0 <= i < s.len() implies bounded_term(#[trigger] term_of(s[i])) by {
            if i < s.len() - 1 {
                assert(s[i] == s.drop_last()[i]);
            }
        }
    }
}

proof fn lemma_entries_bounded(s: Seq<(ByteString, BencodeValue)>)
    ensures
        forall|i: int|
            0 <= i < s.len() ==> #[trigger] s[i].0@.len() <= usize::MAX && bounded_term(
                term_of(s[i].1),
            ),
    decreases s,
{
    if s.len() > 0 {
        lemma_entries_bounded(s.drop_last());
        lemma_value_bounded(s.last().1);
        assert forall|i: int|
            0 <= i < s.len() implies #[trigger] s[i].0@.len() <= usize::MAX && bounded_term(
            term_of(s[i].1),
        ) by {
            assert(s[i].0@.len() == s[i].0.len());
            if i < s.len() - 1 {
                assert(s[i] == s.drop_last()[i]);
            }
        }
    }
}

/// Reading a value from the front of its encoding followed by anything at
/// all gives the value back, and takes up exactly the encoding.
pub proof fn lemma_parse_encode_prefix(v: BencodeValue, rest: Seq<u8>)
    requires
        wf_term(v@),
    ensures
        spec_parse(spec_encode(v@) + rest) == Ok::<(Term, int), Failure>(
            (v@, spec_encode(v@).len() as int),
        ),
{
    lemma_value_bounded(v);
    lemma_parse_encode(v@, rest);
}

/// Decoding the encoding of a well-formed value gives that value back.
pub proof fn lemma_decode_encode(v: BencodeValue)
    requires
        wf_term(v@),
    ensures
        spec_decode(spec_encode(v@)) == Ok::<Term, Failure>(v@),
{
    lemma_value_bounded(v);
    let e = spec_encode(v@);
    lemma_parse_encode(v@, Seq::empty());
    assert(e + Seq::<u8>::empty() =~= e);
}

/// Putting an entry into a dictionary with increasing keys keeps them
/// increasing; every entry after it is the new one or was there before.
pub proof fn lemma_dict_insert_sorted(d: Seq<(Seq<u8>, Term)>, k: Seq<u8>, v: Term)
    requires
        keys_sorted(d),
    ensures
        keys_sorted(dict_insert(d, k, v)),
        forall|i: int|
            0 <= i < dict_insert(d, k, v).len() ==> #[trigger] dict_insert(d, k, v)[i] == (k, v)
                || exists|j: int| 0 <= j < d.len() && dict_insert(d, k, v)[i] == d[j],
    decreases d.len(),
{
    let ins = dict_insert(d, k, v);
    if d.len() == 0 {
    } else if d[0].0 == k {
        assert forall|i: int| 0 <= i < ins.len() implies #[trigger] ins[i] == (k, v) || exists|
            j: int,
        | 0 <= j < d.len() && ins[i] == d[j] by {
            if i > 0 {
                assert(ins[i] == d[i]);
            }
        }
        assert forall|i: int, j: int| 0 <= i < j < ins.len() implies lex_lt(
            #[trigger] ins[i].0,
            #[trigger] ins[j].0,
        ) by {
            assert(ins[j] == d[j]);
            if i > 0 {
                assert(ins[i] == d[i]);
            }
        }
    } else if lex_lt(k, d[0].0) {
        assert forall|i: int| 0 <= i < ins.len() implies #[trigger] ins[i] == (k, v) || exists|
            j: int,
        | 0 <= j < d.len() && ins[i] == d[j] by {
            if i > 0 {
                assert(ins[i] == d[i - 1]);
            }
        }
        assert forall|i: int, j: int| 0 <= i < j < ins.len() implies lex_lt(
            #[trigger] ins[i].0,
            #[trigger] ins[j].0,
        ) by {
            assert(ins[j] == d[j - 1]);
            if i > 0 {
                assert(ins[i] == d[i - 1]);
            } else if j > 1 {
                assert(lex_lt(d[0].0, d[j - 1].0));
                lemma_lex_lt_transitive(k, d[0].0, d[j - 1].0);
            }
        }
    } else {
        let rest = d.drop_first();
        assert forall|i: int, j: int| 0 <= i < j < rest.len() implies lex_lt(
            #[trigger] rest[i].0,
            #[trigger] rest[j].0,
        ) by {
            assert(lex_lt(d[i + 1].0, d[j + 1].0));
        }
        lemma_dict_insert_sorted(rest, k, v);
        let sub = dict_insert(rest, k, v);
        assert(ins == seq![d[0]] + sub);
        lemma_lex_lt_total(k, d[0].0);
        assert forall|i: int| 0 <= i < ins.len() implies #[trigger] ins[i] == (k, v) || exists|
            j: int,
        | 0 <= j < d.len() && ins[i] == d[j] by {
            if i > 0 {
                assert(ins[i] == sub[i - 1]);
                if sub[i - 1] != (k, v) {
                    let j = choose|j: int| 0 <= j < rest.len() && sub[i - 1] == rest[j];
                    assert(ins[i] == d[j + 1]);
                }
            } else {
                assert(ins[0] == d[0]);
            }
        }
        assert forall|i: int, j: int| 0 <= i < j < ins.len() implies lex_lt(
            #[trigger] ins[i].0,
            #[trigger] ins[j].0,
        ) by {
            assert(ins[j] == sub[j - 1]);
            if i > 0 {
                assert(ins[i] == sub[i - 1]);
            } else {
                assert(ins[0] == d[0]);
                if sub[j - 1] != (k, v) {
                    let m = choose|m: int| 0 <= m < rest.len() && sub[j - 1] == rest[m];
                    assert(lex_lt(d[0].0, d[m + 1].0));
                }
            }
        }
    }
}

/// What decoding reads is well formed: each dictionary it builds has
/// strictly increasing keys.
pub proof fn lemma_parse_wf(s: Seq<u8>)
    ensures
        spec_parse(s) matches Ok((t, _)) ==> wf_term(t),
    decreases s.len(), 0int,
{
    if s.len() > 0 && (s[0] == LIST_START || s[0] == DICT_START) {
        let t = s.drop_first();
        if !(t.len() > 0 && t[0] == END) {
            if s[0] == LIST_START {
                lemma_list_items_wf(t, seq![]);
            } else {
                lemma_dict_items_wf(t, seq![]);
            }
        }
    }
}

proof fn lemma_list_items_wf(t: Seq<u8>, acc: Seq<Term>)
    requires
        forall|i: int| 0 <= i < acc.len() ==> wf_term(#[trigger] acc[i]),
    ensures
        spec_list_items(t, acc) matches Ok((ts, _)) ==> forall|i: int|
            0 <= i < ts.len() ==> wf_term(#[trigger] ts[i]),
    decreases t.len(), 1int,
{
    lemma_parse_wf(t);
    if let Ok((x, n)) = spec_parse(t) {
        let acc2 = acc.push(x);
        assert forall|i: int| 0 <= i < acc2.len() implies wf_term(#[trigger] acc2[i]) by {
            if i < acc.len() {
                assert(acc2[i] == acc[i]);
            }
        }
        if 0 < n <= t.len() {
            lemma_list_items_wf(t.skip(n), acc2);
        }
    }
}

proof fn lemma_dict_items_wf(t: Seq<u8>, acc: Seq<(Seq<u8>, Term)>)
    requires
        keys_sorted(acc),
        forall|i: int| 0 <= i < acc.len() ==> wf_term(#[trigger] acc[i].1),
    ensures
        spec_dict_items(t, acc) matches Ok((d, _)) ==> keys_sorted(d) && forall|i: int|
            0 <= i < d.len() ==> wf_term(#[trigger] d[i].1),
    decreases t.len(), 1int,
{
    if let Ok((Term::Bytes(k), n1)) = spec_parse(t) {
        if 0 < n1 <= t.len() {
            let t2 = t.skip(n1);
            lemma_parse_wf(t2);
            if let Ok((v, n2)) = spec_parse(t2) {
                let d = dict_insert(acc, k, v);
                lemma_dict_insert_sorted(acc, k, v);
                assert forall|i: int| 0 <= i < d.len() implies wf_term(#[trigger] d[i].1) by {
                    if d[i] != (k, v) {
                        let j = choose|j: int| 0 <= j < acc.len() && d[i] == acc[j];
                        assert(wf_term(acc[j].1));
                    }
                }
                if 0 < n2 <= t2.len() {
                    lemma_dict_items_wf(t2.skip(n2), d);
                }
            }
        }
    }
}

/// Reading a key after putting an entry in a dictionary: the key put in
/// gives the value put in; every other key gives what it gave before.
pub proof fn lemma_dict_get_insert(d: Seq<(Seq<u8>, Term)>, k: Seq<u8>, v: Term, key: Seq<u8>)
    ensures
        dict_get(dict_insert(d, k, v), key) == if key == k {
            Some(v)
        } else {
            dict_get(d, key)
        },
    decreases d.len(),
{
    let ins = dict_insert(d, k, v);
    assert(ins.len() > 0);
    assert(dict_get(ins, key) == if ins[0].0 == key {
        Some(ins[0].1)
    } else {
        dict_get(ins.drop_first(), key)
    });
    if d.len() == 0 {
        assert(ins == seq![(k, v)]);
        assert(dict_get(Seq::<(Seq<u8>, Term)>::empty(), key) is None);
        assert(ins[0] == (k, v));
        assert(ins.drop_first() =~= Seq::<(Seq<u8>, Term)>::empty());
    } else {
        let rest = d.drop_first();
        assert(dict_get(d, key) == if d[0].0 == key {
            Some(d[0].1)
        } else {
            dict_get(rest, key)
        });
        if d[0].0 == k {
            assert(ins[0] == (k, v));
            assert(ins.drop_first() =~= rest);
        } else if lex_lt(k, d[0].0) {
            assert(ins[0] == (k, v));
            assert(ins.drop_first() =~= d);
        } else {
            lemma_dict_get_insert(rest, k, v, key);
            assert(ins[0] == d[0]);
            assert(ins.drop_first() =~= dict_insert(rest, k, v));
        }
    }
}

} // verus!
