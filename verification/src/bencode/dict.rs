//! Dictionaries held as vectors of entries with strictly increasing keys.
use vstd::prelude::*;

use super::model::{
    dict_get, dict_insert, entries_of, lemma_entries_of, lex_lt, term_of, BencodeValue, ByteString, Term,
};

verus! {

/// How two keys compare in lexicographic byte order.
#[derive(Debug, Clone, Copy, PartialEq, Eq, Structural)]
pub enum KeyOrder {
    Less,
    Equal,
    Greater,
}

pub proof fn lemma_lex_lt_irreflexive(a: Seq<u8>)
    ensures
        !lex_lt(a, a),
    decreases a.len(),
{
    if a.len() > 0 {
        lemma_lex_lt_irreflexive(a.drop_first());
    }
}

pub proof fn lemma_lex_lt_asymmetric(a: Seq<u8>, b: Seq<u8>)
    ensures
        !(lex_lt(a, b) && lex_lt(b, a)),
    decreases a.len(),
{
    if a.len() > 0 && b.len() > 0 && a[0] == b[0] {
        lemma_lex_lt_asymmetric(a.drop_first(), b.drop_first());
    }
}

pub proof fn lemma_lex_lt_total(a: Seq<u8>, b: Seq<u8>)
    ensures
        lex_lt(a, b) || a == b || lex_lt(b, a),
    decreases a.len(),
{
    if a.len() > 0 && b.len() > 0 && a[0] == b[0] {
        lemma_lex_lt_total(a.drop_first(), b.drop_first());
        if a.drop_first() == b.drop_first() {
            assert(a =~= seq![a[0]] + a.drop_first());
            assert(b =~= seq![b[0]] + b.drop_first());
        }
    } else if a.len() == 0 && b.len() == 0 {
        assert(a =~= b);
    }
}

pub proof fn lemma_lex_lt_transitive(a: Seq<u8>, b: Seq<u8>, c: Seq<u8>)
    requires
        lex_lt(a, b),
        lex_lt(b, c),
    ensures
        lex_lt(a, c),
    decreases a.len(),
{
    if a.len() > 0 && b.len() > 0 && c.len() > 0 && a[0] == b[0] && b[0] == c[0] {
        lemma_lex_lt_transitive(a.drop_first(), b.drop_first(), c.drop_first());
    }
}

/// Dropping a common prefix leaves the order unchanged.
proof fn lemma_lex_lt_skip(a: Seq<u8>, b: Seq<u8>, i: int)
    requires
        0 <= i <= a.len(),
        i <= b.len(),
        forall|j: int| 0 <= j < i ==> a[j] == b[j],
    ensures
        lex_lt(a, b) == lex_lt(a.skip(i), b.skip(i)),
    decreases i,
{
    if i > 0 {
        lemma_lex_lt_skip(a.drop_first(), b.drop_first(), i - 1);
        assert(a.drop_first().skip(i - 1) =~= a.skip(i));
        assert(b.drop_first().skip(i - 1) =~= b.skip(i));
    } else {
        assert(a.skip(0) =~= a);
        assert(b.skip(0) =~= b);
    }
}

/// Compares two keys in lexicographic byte order.
pub fn order_keys(a: &[u8], b: &[u8]) -> (r: KeyOrder)
    ensures
        (r == KeyOrder::Less) == lex_lt(a@, b@),
        (r == KeyOrder::Equal) == (a@ == b@),
        (r == KeyOrder::Greater) == lex_lt(b@, a@),
{
    let mut i: usize = 0;
    while i < a.len() && i < b.len() && a[i] == b[i]
        invariant
            i <= a.len(),
            i <= b.len(),
            forall|j: int| 0 <= j < i ==> a@[j] == b@[j],
        decreases a.len() - i,
    {
        i += 1;
    }
    proof {
        lemma_lex_lt_skip(a@, b@, i as int);
        lemma_lex_lt_skip(b@, a@, i as int);
        lemma_lex_lt_asymmetric(a@, b@);
        lemma_lex_lt_irreflexive(a@);
    }
    if i == a.len() && i == b.len() {
        assert(a@ =~= b@);
        KeyOrder::Equal
    } else if i == a.len() {
        assert(a@.skip(i as int).len() == 0);
        KeyOrder::Less
    } else if i == b.len() {
        assert(b@.skip(i as int).len() == 0);
        KeyOrder::Greater
    } else if a[i] < b[i] {
        assert(a@.skip(i as int)[0] == a@[i as int]);
        assert(b@.skip(i as int)[0] == b@[i as int]);
        KeyOrder::Less
    } else {
        assert(a@.skip(i as int)[0] == a@[i as int]);
        assert(b@.skip(i as int)[0] == b@[i as int]);
        KeyOrder::Greater
    }
}

/// `dict_insert` at the position `i` that it finds.
proof fn lemma_dict_insert_at(d: Seq<(Seq<u8>, Term)>, k: Seq<u8>, v: Term, i: int)
    requires
        0 <= i <= d.len(),
        forall|j: int| 0 <= j < i ==> lex_lt(#[trigger] d[j].0, k),
    ensures
        dict_insert(d, k, v) == d.take(i) + dict_insert(d.skip(i), k, v),
    decreases i,
{
    if i == 0 {
        assert(d.skip(0) =~= d);
        assert(d.take(0) =~= Seq::<(Seq<u8>, Term)>::empty());
    } else {
        lemma_lex_lt_asymmetric(d[0].0, k);
        lemma_lex_lt_irreflexive(k);
        lemma_dict_insert_at(d.drop_first(), k, v, i - 1);
        assert(d.drop_first().skip(i - 1) =~= d.skip(i));
        assert(d.take(i) =~= seq![d[0]] + d.drop_first().take(i - 1));
    }
}

/// Puts the entry (`k`, `v`) into the dictionary `d`, as `dict_insert` says.
pub fn insert_entry(d: &mut Vec<(ByteString, BencodeValue)>, k: ByteString, v: BencodeValue)
    ensures
        entries_of(final(d)@) == dict_insert(entries_of(old(d)@), k@, v@),
{
    let ghost e = entries_of(d@);
    proof {
        lemma_entries_of(d@);
    }
    let mut i: usize = 0;
    while i < d.len()
        invariant
            e == entries_of(d@),
            e == entries_of(old(d)@),
            e.len() == d@.len(),
            forall|j: int| 0 <= j < d@.len() ==> #[trigger] e[j] == (d@[j].0@, term_of(d@[j].1)),
            i <= d.len(),
            forall|j: int| 0 <= j < i ==> lex_lt(#[trigger] e[j].0, k@),
        decreases d.len() - i,
    {
        let order = order_keys(d[i].0.as_slice(), k.as_slice());
        match order {
            KeyOrder::Less => {
                i += 1;
            },
            KeyOrder::Equal => {
                proof {
                    lemma_dict_insert_at(e, k@, v@, i as int);
                    assert(e.skip(i as int)[0] == e[i as int]);
                    assert(e.skip(i as int).drop_first() =~= e.skip(i + 1));
                }
                let ghost vv = v@;
                let ghost kk = k@;
                d.set(i, (k, v));
                proof {
                    lemma_entries_of(d@);
                    assert(entries_of(d@) =~= e.take(i as int) + seq![(kk, vv)] + e.skip(i + 1));
                }
                return;
            },
            KeyOrder::Greater => {
                proof {
                    lemma_dict_insert_at(e, k@, v@, i as int);
                    assert(e.skip(i as int)[0] == e[i as int]);
                    lemma_lex_lt_irreflexive(k@);
                }
                let ghost vv = v@;
                let ghost kk = k@;
                d.insert(i, (k, v));
                proof {
                    lemma_entries_of(d@);
                    assert(entries_of(d@) =~= e.take(i as int) + seq![(kk, vv)] + e.skip(i as int));
                }
                return;
            },
        }
    }
    proof {
        lemma_dict_insert_at(e, k@, v@, i as int);
        assert(e.skip(i as int) =~= Seq::<(Seq<u8>, Term)>::empty());
        assert(e.take(i as int) =~= e);
    }
    let ghost vv = v@;
    let ghost kk = k@;
    d.push((k, v));
    proof {
        lemma_entries_of(d@);
        assert(entries_of(d@) =~= e + seq![(kk, vv)]);
    }
}

/// The value stored under key `k`, found by walking the entries in order.
pub fn lookup<'a>(d: &'a Vec<(ByteString, BencodeValue)>, k: &[u8]) -> (r: Option<&'a BencodeValue>)
    ensures
        match r {
            Some(v) => dict_get(entries_of(d@), k@) == Some(v@),
            None => dict_get(entries_of(d@), k@) is None,
        },
{
    let ghost e = entries_of(d@);
    proof {
        lemma_entries_of(d@);
    }
    let mut i: usize = 0;
    assert(e.skip(0) =~= e);
    while i < d.len()
        invariant
            e == entries_of(d@),
            e.len() == d@.len(),
            forall|j: int| 0 <= j < d@.len() ==> #[trigger] e[j] == (d@[j].0@, term_of(d@[j].1)),
            i <= d.len(),
            dict_get(e, k@) == dict_get(e.skip(i as int), k@),
        decreases d.len() - i,
    {
        assert(e.skip(i as int)[0] == e[i as int]);
        assert(e.skip(i as int).drop_first() =~= e.skip(i + 1));
        if let KeyOrder::Equal = order_keys(d[i].0.as_slice(), k) {
            return Some(&d[i].1);
        }
        i += 1;
    }
    None
}

} // verus!
