//! What reading a value depends on: its own bytes and nothing after them;
//! and the inputs that encoding what they decode to gives back.
use vstd::prelude::*;

use super::dict::lemma_lex_lt_transitive;
use super::grammar::{
    decimal, encode_bytes, encode_entries, encode_terms, find_byte, int_text, is_digit,
    lemma_dict_items_consume, lemma_find_byte, lemma_list_items_consume, lemma_parse_consumes,
    lemma_scan_bounds, scan_decimal, spec_decode, spec_dict_items, spec_encode, spec_list_items,
    spec_parse, spec_parse_integer, spec_parse_length, COLON, DICT_START, END, INT_START,
    LIST_START, MINUS, ZERO,
};
use super::laws::{lemma_decimal, lemma_dict_insert_greatest, lemma_scan_push};
use super::model::{dict_insert, lex_lt, Term};

verus! {

/// The first occurrence of `b` in `q` is also the first in `q` followed by
/// anything.
proof fn lemma_find_byte_extend(q: Seq<u8>, s: Seq<u8>, b: u8)
    requires
        find_byte(q, b) is Some,
    ensures
        find_byte(q + s, b) == find_byte(q, b),
    decreases q.len(),
{
    assert((q + s)[0] == q[0]);
    if q[0] != b {
        assert((q + s).drop_first() =~= q.drop_first() + s);
        lemma_find_byte_extend(q.drop_first(), s, b);
    }
}

/// Reading never looks past the value it reads: whatever bytes follow a
/// value that reads, the same value reads from the front, taking up the
/// same bytes (what follows is left over).
pub proof fn lemma_parse_extend(q: Seq<u8>, s: Seq<u8>)
    requires
        spec_parse(q) is Ok,
    ensures
        spec_parse(q + s) == spec_parse(q),
    decreases q.len(), 0int,
{
    let qs = q + s;
    assert(qs[0] == q[0]);
    if is_digit(q[0]) {
        lemma_find_byte_extend(q, s, COLON);
        lemma_find_byte(q, COLON);
        let c = find_byte(q, COLON)->Some_0;
        assert(qs.take(c) =~= q.take(c));
        lemma_scan_bounds(q.take(c), 0, false, 0, usize::MAX as int);
        if let Ok(len) = spec_parse_length(q.take(c)) {
            if c + 1 + len <= q.len() {
                assert(qs.subrange(c + 1, c + 1 + len) =~= q.subrange(c + 1, c + 1 + len));
            }
        }
    } else if q[0] == INT_START {
        lemma_find_byte_extend(q, s, END);
        lemma_find_byte(q, END);
        let e = find_byte(q, END)->Some_0;
        assert(qs.subrange(1, e) =~= q.subrange(1, e));
    } else if q[0] == LIST_START || q[0] == DICT_START {
        let t = q.drop_first();
        assert(qs.drop_first() =~= t + s);
        if t.len() > 0 {
            assert((t + s)[0] == t[0]);
        }
        if !(t.len() > 0 && t[0] == END) {
            if q[0] == LIST_START {
                lemma_list_items_extend(t, s, seq![]);
            } else {
                lemma_dict_items_extend(t, s, seq![]);
            }
        }
    }
}

proof fn lemma_list_items_extend(t: Seq<u8>, s: Seq<u8>, acc: Seq<Term>)
    requires
        spec_list_items(t, acc) is Ok,
    ensures
        spec_list_items(t + s, acc) == spec_list_items(t, acc),
    decreases t.len(), 1int,
{
    lemma_parse_extend(t, s);
    if let Ok((x, n)) = spec_parse(t) {
        let r = t.skip(n);
        assert((t + s).skip(n) =~= r + s);
        if r.len() > 0 {
            assert((r + s)[0] == r[0]);
        } else {
            assert(spec_parse(r) is Err);
        }
        if !(r.len() > 0 && r[0] == END) {
            lemma_list_items_extend(r, s, acc.push(x));
        }
    }
}

proof fn lemma_dict_items_extend(t: Seq<u8>, s: Seq<u8>, acc: Seq<(Seq<u8>, Term)>)
    requires
        spec_dict_items(t, acc) is Ok,
    ensures
        spec_dict_items(t + s, acc) == spec_dict_items(t, acc),
    decreases t.len(), 1int,
{
    lemma_parse_extend(t, s);
    if let Ok((Term::Bytes(k), n1)) = spec_parse(t) {
        let t2 = t.skip(n1);
        assert((t + s).skip(n1) =~= t2 + s);
        lemma_parse_extend(t2, s);
        if let Ok((v, n2)) = spec_parse(t2) {
            let r = t2.skip(n2);
            assert((t2 + s).skip(n2) =~= r + s);
            if r.len() > 0 {
                assert((r + s)[0] == r[0]);
            } else {
                assert(spec_parse(r) is Err);
            }
            if !(r.len() > 0 && r[0] == END) {
                lemma_dict_items_extend(r, s, dict_insert(acc, k, v));
            }
        }
    }
}

/// The value at the front of `s` is written the one way that encoding writes
/// it: each byte-string length without leading zeros, and the keys of each
/// dictionary in strictly increasing byte order, each key once. (Decoding
/// accepts integers written in one way only.)
pub open spec fn canonical(s: Seq<u8>) -> bool
    decreases s.len(), 0int,
{
    if s.len() == 0 {
        true
    } else if is_digit(s[0]) {
        match find_byte(s, COLON) {
            Some(c) => s[0] != ZERO || c == 1,
            None => true,
        }
    } else if s[0] == LIST_START || s[0] == DICT_START {
        let t = s.drop_first();
        if t.len() > 0 && t[0] == END {
            true
        } else if s[0] == LIST_START {
            canonical_items(t)
        } else {
            canonical_entries(t, None)
        }
    } else {
        true
    }
}

/// The items of a list, up to its closing `e`, are each written canonically.
pub open spec fn canonical_items(t: Seq<u8>) -> bool
    decreases t.len(), 1int,
{
    match spec_parse(t) {
        Ok((_, n)) => canonical(t) && if 0 < n <= t.len() {
            let r = t.skip(n);
            (r.len() > 0 && r[0] == END) || canonical_items(r)
        } else {
            true
        },
        Err(_) => true,
    }
}

/// The entries of a dictionary, up to its closing `e`, after an entry with
/// key `prev` if there was one: each key and value written canonically, and
/// each key greater than the one before.
pub open spec fn canonical_entries(t: Seq<u8>, prev: Option<Seq<u8>>) -> bool
    decreases t.len(), 1int,
{
    match spec_parse(t) {
        Ok((Term::Bytes(k), n1)) => {
            &&& canonical(t)
            &&& prev matches Some(p) ==> lex_lt(p, k)
            &&& if 0 < n1 <= t.len() {
                let t2 = t.skip(n1);
                match spec_parse(t2) {
                    Ok((_, n2)) => canonical(t2) && if 0 < n2 <= t2.len() {
                        let r = t2.skip(n2);
                        (r.len() > 0 && r[0] == END) || canonical_entries(r, Some(k))
                    } else {
                        true
                    },
                    Err(_) => true,
                }
            } else {
                true
            }
        },
        _ => true,
    }
}

/// Digits without a leading zero (but for `0` itself) that scan to a value
/// are the decimal digits of its magnitude.
proof fn lemma_decimal_of_scan(d: Seq<u8>, negative: bool, min: int, max: int)
    requires
        d.len() >= 1,
        d[0] != ZERO || d.len() == 1,
        min <= 0 <= max,
        scan_decimal(d, 0, negative, min, max) is Ok,
    ensures
        scan_decimal(d, 0, negative, min, max) matches Ok(x) && {
            &&& negative ==> x <= 0
            &&& !negative ==> x >= 0
            &&& decimal((if negative { -x } else { x }) as nat) == d
        },
    decreases d.len(),
{
    if d.len() == 1 {
        assert(d.drop_first() =~= Seq::<u8>::empty());
        assert(is_digit(d[0]));
        let digit = d[0] - ZERO;
        let next: int = if negative {
            -digit
        } else {
            digit as int
        };
        assert(scan_decimal(d, 0, negative, min, max) == scan_decimal(
            d.drop_first(),
            next,
            negative,
            min,
            max,
        ));
        assert(decimal(digit as nat) =~= d);
    } else {
        let e = d.drop_last();
        let c = d.last();
        assert(e.push(c) =~= d);
        assert(e[0] == d[0]);
        lemma_scan_push(e, c, 0, negative, min, max);
        lemma_decimal_of_scan(e, negative, min, max);
        let v = scan_decimal(e, 0, negative, min, max)->Ok_0;
        let x = scan_decimal(d, 0, negative, min, max)->Ok_0;
        let mv: int = if negative { -v } else { v };
        let mx: int = if negative { -x } else { x };
        let one = seq![c];
        assert(one.drop_first() =~= Seq::<u8>::empty());
        assert(one[0] == c);
        assert(scan_decimal(d, 0, negative, min, max) == scan_decimal(one, v, negative, min, max));
        assert(is_digit(c));
        let digit = c - ZERO;
        let next = if negative {
            v * 10 - digit
        } else {
            v * 10 + digit
        };
        assert(scan_decimal(one, v, negative, min, max) == scan_decimal(
            one.drop_first(),
            next,
            negative,
            min,
            max,
        ));
        assert(x == next);
        assert(mx == mv * 10 + digit);
        lemma_decimal(mv as nat);
        assert(mv != 0);
        assert(mx >= 10);
        assert(mx / 10 == mv && mx % 10 == digit) by (nonlinear_arith)
            requires
                mx == mv * 10 + digit,
                0 <= digit < 10,
        ;
        assert(decimal(mx as nat) == decimal(mv as nat).push((ZERO + digit) as u8));
    }
}

/// The integer text of a value that decodes is what encoding writes.
proof fn lemma_int_text_of_body(body: Seq<u8>)
    requires
        spec_parse_integer(body) is Ok,
    ensures
        spec_parse_integer(body) matches Ok(x) && int_text(x as int) == body,
{
    let negative = body[0] == MINUS;
    let digits = if negative {
        body.drop_first()
    } else {
        body
    };
    lemma_scan_bounds(digits, 0, negative, i64::MIN as int, i64::MAX as int);
    lemma_decimal_of_scan(digits, negative, i64::MIN as int, i64::MAX as int);
    let x = scan_decimal(digits, 0, negative, i64::MIN as int, i64::MAX as int)->Ok_0;
    if negative {
        lemma_decimal(0);
        assert(digits[0] == body[1]);
        assert(x != 0);
        assert(body =~= seq![MINUS] + digits);
    }
}

/// A canonical value that reads is written exactly as encoding its value
/// writes it.
proof fn lemma_encode_canonical(s: Seq<u8>)
    requires
        spec_parse(s) is Ok,
        canonical(s),
    ensures
        spec_parse(s) matches Ok((t, n)) && spec_encode(t) == s.take(n),
    decreases s.len(), 0int,
{
    if is_digit(s[0]) {
        lemma_find_byte(s, COLON);
        let c = find_byte(s, COLON)->Some_0;
        let prefix = s.take(c);
        assert(prefix[0] == s[0]);
        lemma_scan_bounds(prefix, 0, false, 0, usize::MAX as int);
        lemma_decimal_of_scan(prefix, false, 0, usize::MAX as int);
        let len = spec_parse_length(prefix)->Ok_0;
        let b = s.subrange(c + 1, c + 1 + len);
        assert(b.len() == len);
        assert(s.take(c + 1 + len) =~= prefix + seq![COLON] + b);
    } else if s[0] == INT_START {
        lemma_find_byte(s, END);
        let e = find_byte(s, END)->Some_0;
        let body = s.subrange(1, e);
        lemma_int_text_of_body(body);
        assert(s.take(e + 1) =~= seq![INT_START] + body + seq![END]);
    } else if s[0] == LIST_START {
        let t = s.drop_first();
        if t.len() > 0 && t[0] == END {
            assert(s.take(2) =~= seq![LIST_START] + encode_terms(seq![]) + seq![END]);
        } else {
            lemma_encode_items(t, seq![]);
            let m = spec_list_items(t, seq![])->Ok_0.1;
            lemma_list_items_consume(t, seq![]);
            assert(encode_terms(Seq::<Term>::empty()) =~= Seq::<u8>::empty());
            assert(s.take(m + 1) =~= seq![LIST_START] + t.take(m));
        }
    } else {
        let t = s.drop_first();
        if t.len() > 0 && t[0] == END {
            assert(s.take(2) =~= seq![DICT_START] + encode_entries(seq![]) + seq![END]);
        } else {
            lemma_encode_entries(t, seq![], None);
            let m = spec_dict_items(t, seq![])->Ok_0.1;
            lemma_dict_items_consume(t, seq![]);
            assert(encode_entries(Seq::<(Seq<u8>, Term)>::empty()) =~= Seq::<u8>::empty());
            assert(s.take(m + 1) =~= seq![DICT_START] + t.take(m));
        }
    }
}

/// The items of a canonical list are written as encoding writes them, up to
/// the closing `e`, after the items `acc` read before.
proof fn lemma_encode_items(t: Seq<u8>, acc: Seq<Term>)
    requires
        spec_list_items(t, acc) is Ok,
        canonical_items(t),
    ensures
        spec_list_items(t, acc) matches Ok((ts, m)) && encode_terms(ts) + seq![END]
            == encode_terms(acc) + t.take(m),
    decreases t.len(), 1int,
{
    lemma_encode_canonical(t);
    let (x, n) = spec_parse(t)->Ok_0;
    let r = t.skip(n);
    assert(acc.push(x).drop_last() =~= acc);
    assert(encode_terms(acc.push(x)) == encode_terms(acc) + spec_encode(x));
    if r.len() > 0 && r[0] == END {
        assert(t.take(n + 1) =~= t.take(n) + seq![END]);
    } else {
        if r.len() == 0 {
            assert(spec_parse(r) is Err);
        }
        lemma_encode_items(r, acc.push(x));
        lemma_list_items_consume(r, acc.push(x));
        let m2 = spec_list_items(r, acc.push(x))->Ok_0.1;
        assert(t.take(n) + r.take(m2) =~= t.take(n + m2));
    }
}

/// The entries of a canonical dictionary are written as encoding writes
/// them, up to the closing `e`, after the entries `acc` read before, whose
/// keys are at most `prev`.
#[verifier::rlimit(40)]
proof fn lemma_encode_entries(t: Seq<u8>, acc: Seq<(Seq<u8>, Term)>, prev: Option<Seq<u8>>)
    requires
        spec_dict_items(t, acc) is Ok,
        canonical_entries(t, prev),
        forall|i: int|
            0 <= i < acc.len() ==> (prev matches Some(p) && (#[trigger] acc[i].0 == p || lex_lt(
                acc[i].0,
                p,
            ))),
    ensures
        spec_dict_items(t, acc) matches Ok((d, m)) && encode_entries(d) + seq![END]
            == encode_entries(acc) + t.take(m),
    decreases t.len(), 1int,
{
    lemma_encode_canonical(t);
    let (kt, n1) = spec_parse(t)->Ok_0;
    let k = kt->Bytes_0;
    let t2 = t.skip(n1);
    lemma_encode_canonical(t2);
    let (v, n2) = spec_parse(t2)->Ok_0;
    let r = t2.skip(n2);
    assert forall|i: int| 0 <= i < acc.len() implies lex_lt(#[trigger] acc[i].0, k) by {
        let p = prev->Some_0;
        if acc[i].0 != p {
            lemma_lex_lt_transitive(acc[i].0, p, k);
        }
    }
    lemma_dict_insert_greatest(acc, k, v);
    let acc2 = acc.push((k, v));
    assert(acc2.drop_last() =~= acc);
    assert(encode_entries(acc2) == encode_entries(acc) + encode_bytes(k) + spec_encode(v));
    assert(t.take(n1) + t2.take(n2) =~= t.take(n1 + n2));
    if r.len() > 0 && r[0] == END {
        assert(t.take(n1 + n2 + 1) =~= t.take(n1 + n2) + seq![END]);
    } else {
        if r.len() == 0 {
            assert(spec_parse(r) is Err);
        }
        lemma_encode_entries(r, acc2, Some(k));
        lemma_dict_items_consume(r, acc2);
        let m2 = spec_dict_items(r, acc2)->Ok_0.1;
        assert(t.take(n1 + n2) + r.take(m2) =~= t.take(n1 + n2 + m2));
    }
}

/// An input written canonically is given back whole by encoding what it
/// decodes to; so a hash of that encoding is a hash of the input.
pub proof fn lemma_encode_decode_canonical(b: Seq<u8>)
    requires
        spec_decode(b) is Ok,
        canonical(b),
    ensures
        spec_decode(b) matches Ok(t) && spec_encode(t) == b,
{
    lemma_encode_canonical(b);
    assert(b.take(b.len() as int) =~= b);
}

} // verus!
