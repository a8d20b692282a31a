//! Reading a decoded value: its kind, its contents, and its JSON form.
use vstd::prelude::*;

use super::dict::{lemma_lex_lt_asymmetric, lemma_lex_lt_irreflexive, order_keys, KeyOrder};
use super::model::{
    entries_of, lex_lt, terms_of, BencodeParseError,
    BencodeValue, ByteString, Failure, Term,
};
use crate::text::{utf8_lossy, utf8_text};
use vstd::string::StringSliceAdditionalSpecFns;
use vstd::utf8::{encode_utf8, encode_utf8_decode_utf8};

verus! {

/// The name of a term's kind, as errors report it.
pub open spec fn kind_name(t: Term) -> Seq<char> {
    match t {
        Term::Int(_) => "integer"@,
        Term::Bytes(_) => "byte string"@,
        Term::List(_) => "list"@,
        Term::Dict(_) => "dict"@,
    }
}

/// The error for a value of another kind than the one expected.
pub open spec fn mismatch(expected: Seq<char>, t: Term) -> Failure {
    Failure::TypeMismatch(expected, kind_name(t))
}

impl BencodeValue {
    /// The name of this value's kind.
    pub fn kind_label(&self) -> (r: &'static str)
        ensures
            r@ == kind_name(self@),
    {
        match self {
            BencodeValue::Integer(_) => "integer",
            BencodeValue::ByteString(_) => "byte string",
            BencodeValue::List(_) => "list",
            BencodeValue::Dict(_) => "dict",
        }
    }

    /// The integer, if this value is one.
    pub fn as_integer(&self) -> (r: Result<i64, BencodeParseError>)
        ensures
            match self@ {
                Term::Int(x) => r matches Ok(y) && y == x,
                t => r matches Err(e) && e@ == mismatch("integer"@, t),
            },
    {
        if let BencodeValue::Integer(x) = self {
            Ok(*x)
        } else {
            Err(BencodeParseError::TypeMismatch { expected: "integer", actual: self.kind_label() })
        }
    }

    /// The bytes, if this value is a byte string.
    pub fn as_bytes(&self) -> (r: Result<&[u8], BencodeParseError>)
        ensures
            match self@ {
                Term::Bytes(b) => r matches Ok(s) && s@ == b,
                t => r matches Err(e) && e@ == mismatch("byte string"@, t),
            },
    {
        if let BencodeValue::ByteString(s) = self {
            Ok(s.as_slice())
        } else {
            Err(
                BencodeParseError::TypeMismatch {
                    expected: "byte string",
                    actual: self.kind_label(),
                },
            )
        }
    }

    /// The byte string, if this value is one.
    pub fn as_byte_string(&self) -> (r: Result<&ByteString, BencodeParseError>)
        ensures
            match self@ {
                Term::Bytes(b) => r matches Ok(s) && s@ == b,
                t => r matches Err(e) && e@ == mismatch("byte string"@, t),
            },
    {
        if let BencodeValue::ByteString(s) = self {
            Ok(s)
        } else {
            Err(
                BencodeParseError::TypeMismatch {
                    expected: "byte string",
                    actual: self.kind_label(),
                },
            )
        }
    }

    /// The elements, if this value is a list.
    pub fn as_vec(&self) -> (r: Result<&Vec<BencodeValue>, BencodeParseError>)
        ensures
            match self@ {
                Term::List(ts) => r matches Ok(v) && terms_of(v@) == ts,
                t => r matches Err(e) && e@ == mismatch("list"@, t),
            },
    {
        if let BencodeValue::List(v) = self {
            Ok(v)
        } else {
            Err(BencodeParseError::TypeMismatch { expected: "list", actual: self.kind_label() })
        }
    }

    /// The entries, if this value is a dictionary.
    pub fn as_dict(&self) -> (r: Result<&Vec<(ByteString, BencodeValue)>, BencodeParseError>)
        ensures
            match self@ {
                Term::Dict(d) => r matches Ok(v) && entries_of(v@) == d,
                t => r matches Err(e) && e@ == mismatch("dict"@, t),
            },
    {
        if let BencodeValue::Dict(d) = self {
            Ok(d)
        } else {
            Err(BencodeParseError::TypeMismatch { expected: "dict", actual: self.kind_label() })
        }
    }
}

/// A JSON value: the form in which a bencode value is shown to a reader.
pub enum JsonValue {
    Number(i64),
    Array(Vec<JsonValue>),
    Object(Vec<(String, JsonValue)>),
}

/// The mathematical content of a `JsonValue`.
pub enum Json {
    Number(i64),
    Array(Seq<Json>),
    Object(Seq<(Seq<char>, Json)>),
}

pub open spec fn json_view(j: JsonValue) -> Json
    decreases j,
{
    match j {
        JsonValue::Number(x) => Json::Number(x),
        JsonValue::Array(items) => Json::Array(json_views(items@)),
        JsonValue::Object(members) => Json::Object(member_views(members@)),
    }
}

pub open spec fn json_views(s: Seq<JsonValue>) -> Seq<Json>
    decreases s,
{
    if s.len() == 0 {
        Seq::empty()
    } else {
        json_views(s.drop_last()).push(json_view(s.last()))
    }
}

pub open spec fn member_views(s: Seq<(String, JsonValue)>) -> Seq<(Seq<char>, Json)>
    decreases s,
{
    if s.len() == 0 {
        Seq::empty()
    } else {
        member_views(s.drop_last()).push((s.last().0@, json_view(s.last().1)))
    }
}

impl View for JsonValue {
    type V = Json;

    open spec fn view(&self) -> Json {
        json_view(*self)
    }
}

/// The bytes of a byte string as an array of numbers.
pub open spec fn byte_numbers(b: Seq<u8>) -> Seq<Json> {
    Seq::new(b.len(), |i: int| Json::Number(b[i] as i64))
}

/// The JSON form of a term: an integer is a number, a byte string an array
/// of its bytes, a list an array, and a dictionary an object whose member
/// names are its keys read as UTF-8 (lossily; see `json_members_of`).
pub open spec fn json_of(t: Term) -> Json
    decreases t,
{
    match t {
        Term::Int(x) => Json::Number(x),
        Term::Bytes(b) => Json::Array(byte_numbers(b)),
        Term::List(ts) => Json::Array(jsons_of(ts)),
        Term::Dict(d) => Json::Object(json_members_of(d)),
    }
}

pub open spec fn jsons_of(ts: Seq<Term>) -> Seq<Json>
    decreases ts,
{
    if ts.len() == 0 {
        Seq::empty()
    } else {
        jsons_of(ts.drop_last()).push(json_of(ts.last()))
    }
}

/// The order of JSON member names: the byte order of their UTF-8 encodings,
/// which is the order of `String`s.
pub open spec fn name_lt(a: Seq<char>, b: Seq<char>) -> bool {
    lex_lt(encode_utf8(a), encode_utf8(b))
}

/// The members `m` with the member (`k`, `v`) put in, as a JSON object map
/// kept in name order takes it: it replaces the member named `k` if there is
/// one, and otherwise stands before the first member whose name is greater.
pub open spec fn object_insert(m: Seq<(Seq<char>, Json)>, k: Seq<char>, v: Json) -> Seq<(Seq<char>, Json)>
    decreases m.len(),
{
    if m.len() == 0 {
        seq![(k, v)]
    } else if m[0].0 == k {
        seq![(k, v)] + m.drop_first()
    } else if name_lt(k, m[0].0) {
        seq![(k, v)] + m
    } else {
        seq![m[0]] + object_insert(m.drop_first(), k, v)
    }
}

/// The members of the JSON object of a dictionary: its entries put in one
/// after the other, each under its key read as UTF-8 (`utf8_text`). Members
/// come in name order, and keys that read as the same text leave one member,
/// with the value of the last of them.
pub open spec fn json_members_of(d: Seq<(Seq<u8>, Term)>) -> Seq<(Seq<char>, Json)>
    decreases d,
{
    if d.len() == 0 {
        Seq::empty()
    } else {
        object_insert(
            json_members_of(d.drop_last()),
            utf8_text(d.last().0),
            json_of(d.last().1),
        )
    }
}

proof fn lemma_json_views_push(s: Seq<JsonValue>, j: JsonValue)
    ensures
        json_views(s.push(j)) == json_views(s).push(j@),
{
    assert(s.push(j).drop_last() =~= s);
}

impl BencodeValue {
    /// The JSON form of this value (see `json_of`).
    pub fn to_json(&self) -> (r: JsonValue)
        ensures
            r@ == json_of(self@),
        decreases self,
    {
        match self {
            BencodeValue::Integer(x) => JsonValue::Number(*x),
            BencodeValue::ByteString(s) => {
                let mut out: Vec<JsonValue> = Vec::new();
                let mut i: usize = 0;
                while i < s.len()
                    invariant
                        i <= s.len(),
                        json_views(out@) == byte_numbers(s@.take(i as int)),
                    decreases s.len() - i,
                {
                    let j = JsonValue::Number(s[i] as i64);
                    proof {
                        lemma_json_views_push(out@, j);
                        assert(byte_numbers(s@.take(i + 1)) =~= byte_numbers(s@.take(i as int)).push(
                            Json::Number(s@[i as int] as i64),
                        ));
                    }
                    out.push(j);
                    i += 1;
                }
                assert(s@.take(i as int) =~= s@);
                JsonValue::Array(out)
            },
            BencodeValue::List(items) => JsonValue::Array(list_to_json(items)),
            BencodeValue::Dict(d) => JsonValue::Object(dict_to_json(d)),
        }
    }
}

/// The JSON forms of the items, in order.
fn list_to_json(items: &Vec<BencodeValue>) -> (r: Vec<JsonValue>)
    ensures
        json_views(r@) == jsons_of(terms_of(items@)),
    decreases items,
{
    let mut out: Vec<JsonValue> = Vec::new();
    let mut i: usize = 0;
    assert(items@.take(0) =~= Seq::<BencodeValue>::empty());
    while i < items.len()
        invariant
            i <= items.len(),
            json_views(out@) == jsons_of(terms_of(items@.take(i as int))),
        decreases items.len() - i,
    {
        let j = items[i].to_json();
        proof {
            lemma_json_views_push(out@, j);
            let p = items@.take(i + 1);
            assert(p.drop_last() =~= items@.take(i as int));
            assert(p.last() == items@[i as int]);
            let ts = terms_of(p);
            assert(ts.drop_last() =~= terms_of(items@.take(i as int)));
        }
        out.push(j);
        i += 1;
    }
    assert(items@.take(i as int) =~= items@);
    out
}

proof fn lemma_member_views(s: Seq<(String, JsonValue)>)
    ensures
        member_views(s).len() == s.len(),
        forall|i: int| 0 <= i < s.len() ==> #[trigger] member_views(s)[i] == (s[i].0@, json_view(s[i].1)),
    decreases s.len(),
{
    if s.len() > 0 {
        lemma_member_views(s.drop_last());
    }
}

/// `object_insert` at the position `i` that it finds.
proof fn lemma_object_insert_at(m: Seq<(Seq<char>, Json)>, k: Seq<char>, v: Json, i: int)
    requires
        0 <= i <= m.len(),
        forall|j: int| 0 <= j < i ==> name_lt(#[trigger] m[j].0, k),
    ensures
        object_insert(m, k, v) == m.take(i) + object_insert(m.skip(i), k, v),
    decreases i,
{
    if i == 0 {
        assert(m.skip(0) =~= m);
        assert(m.take(0) =~= Seq::<(Seq<char>, Json)>::empty());
    } else {
        assert(name_lt(m[0].0, k));
        lemma_lex_lt_asymmetric(encode_utf8(m[0].0), encode_utf8(k));
        lemma_lex_lt_irreflexive(encode_utf8(k));
        lemma_object_insert_at(m.drop_first(), k, v, i - 1);
        assert(m.drop_first().skip(i - 1) =~= m.skip(i));
        assert(m.take(i) =~= seq![m[0]] + m.drop_first().take(i - 1));
    }
}

/// Puts the member (`k`, `v`) into the members `m`, as `object_insert` says.
fn insert_member(m: &mut Vec<(String, JsonValue)>, k: String, v: JsonValue)
    ensures
        member_views(final(m)@) == object_insert(member_views(old(m)@), k@, v@),
{
    let ghost e = member_views(m@);
    let ghost kk = k@;
    let ghost vv = v@;
    proof {
        lemma_member_views(m@);
    }
    let mut i: usize = 0;
    while i < m.len()
        invariant
            e == member_views(m@),
            e == member_views(old(m)@),
            e.len() == m@.len(),
            forall|j: int| 0 <= j < m@.len() ==> #[trigger] e[j] == (m@[j].0@, json_view(m@[j].1)),
            kk == k@,
            vv == v@,
            i <= m.len(),
            forall|j: int| 0 <= j < i ==> name_lt(#[trigger] e[j].0, kk),
        decreases m.len() - i,
    {
        let order = order_keys(m[i].0.as_str().as_bytes(), k.as_str().as_bytes());
        match order {
            KeyOrder::Less => {
                i += 1;
            },
            KeyOrder::Equal => {
                proof {
                    encode_utf8_decode_utf8(e[i as int].0);
                    encode_utf8_decode_utf8(kk);
                    assert(e[i as int].0 == kk);
                    lemma_object_insert_at(e, kk, vv, i as int);
                    assert(e.skip(i as int)[0] == e[i as int]);
                    assert(e.skip(i as int).drop_first() =~= e.skip(i + 1));
                }
                m.set(i, (k, v));
                proof {
                    lemma_member_views(m@);
                    assert(member_views(m@) =~= e.take(i as int) + seq![(kk, vv)] + e.skip(i + 1));
                }
                return;
            },
            KeyOrder::Greater => {
                proof {
                    lemma_object_insert_at(e, kk, vv, i as int);
                    assert(e.skip(i as int)[0] == e[i as int]);
                    lemma_lex_lt_irreflexive(encode_utf8(kk));
                }
                m.insert(i, (k, v));
                proof {
                    lemma_member_views(m@);
                    assert(member_views(m@) =~= e.take(i as int) + seq![(kk, vv)] + e.skip(i as int));
                }
                return;
            },
        }
    }
    proof {
        lemma_object_insert_at(e, kk, vv, i as int);
        assert(e.skip(i as int) =~= Seq::<(Seq<char>, Json)>::empty());
        assert(e.take(i as int) =~= e);
    }
    m.push((k, v));
    proof {
        lemma_member_views(m@);
        assert(member_views(m@) =~= e + seq![(kk, vv)]);
    }
}

/// The JSON members for the entries, put in one after the other: each key
/// read as UTF-8, with the JSON form of its value (see `json_members_of`).
fn dict_to_json(entries: &Vec<(ByteString, BencodeValue)>) -> (r: Vec<(String, JsonValue)>)
    ensures
        member_views(r@) == json_members_of(entries_of(entries@)),
    decreases entries,
{
    let mut out: Vec<(String, JsonValue)> = Vec::new();
    let mut i: usize = 0;
    assert(entries@.take(0) =~= Seq::<(ByteString, BencodeValue)>::empty());
    while i < entries.len()
        invariant
            i <= entries.len(),
            member_views(out@) == json_members_of(entries_of(entries@.take(i as int))),
        decreases entries.len() - i,
    {
        let key = utf8_lossy(entries[i].0.as_slice());
        let j = entries[i].1.to_json();
        proof {
            let p = entries@.take(i + 1);
            assert(p.drop_last() =~= entries@.take(i as int));
            assert(p.last() == entries@[i as int]);
            let es = entries_of(p);
            assert(es.drop_last() =~= entries_of(entries@.take(i as int)));
        }
        insert_member(&mut out, key, j);
        i += 1;
    }
    assert(entries@.take(i as int) =~= entries@);
    out
}

impl BencodeValue {
    /// A copy of this value, item by item.
    pub fn deep_copy(&self) -> (r: BencodeValue)
        ensures
            r@ == self@,
        decreases self,
    {
        match self {
            BencodeValue::Integer(x) => BencodeValue::Integer(*x),
            BencodeValue::ByteString(s) => BencodeValue::ByteString(vstd::slice::slice_to_vec(s.as_slice())),
            BencodeValue::List(items) => BencodeValue::List(copy_items(items)),
            BencodeValue::Dict(entries) => BencodeValue::Dict(copy_entries(entries)),
        }
    }
}

fn copy_items(items: &Vec<BencodeValue>) -> (r: Vec<BencodeValue>)
    ensures
        terms_of(r@) == terms_of(items@),
    decreases items,
{
    let mut out: Vec<BencodeValue> = Vec::new();
    let mut i: usize = 0;
    assert(items@.take(0) =~= Seq::<BencodeValue>::empty());
    while i < items.len()
        invariant
            i <= items.len(),
            terms_of(out@) == terms_of(items@.take(i as int)),
        decreases items.len() - i,
    {
        let v = items[i].deep_copy();
        proof {
            let p = items@.take(i + 1);
            assert(p.drop_last() =~= items@.take(i as int));
            assert(p.last() == items@[i as int]);
            assert(out@.push(v).drop_last() =~= out@);
        }
        out.push(v);
        i += 1;
    }
    assert(items@.take(i as int) =~= items@);
    out
}

fn copy_entries(entries: &Vec<(ByteString, BencodeValue)>) -> (r: Vec<(ByteString, BencodeValue)>)
    ensures
        entries_of(r@) == entries_of(entries@),
    decreases entries,
{
    let mut out: Vec<(ByteString, BencodeValue)> = Vec::new();
    let mut i: usize = 0;
    assert(entries@.take(0) =~= Seq::<(ByteString, BencodeValue)>::empty());
    while i < entries.len()
        invariant
            i <= entries.len(),
            entries_of(out@) == entries_of(entries@.take(i as int)),
        decreases entries.len() - i,
    {
        let k = vstd::slice::slice_to_vec(entries[i].0.as_slice());
        let v = entries[i].1.deep_copy();
        proof {
            let p = entries@.take(i + 1);
            assert(p.drop_last() =~= entries@.take(i as int));
            assert(p.last() == entries@[i as int]);
            assert(out@.push((k, v)).drop_last() =~= out@);
        }
        out.push((k, v));
        i += 1;
    }
    assert(entries@.take(i as int) =~= entries@);
    out
}

impl Clone for BencodeValue {
    fn clone(&self) -> (r: BencodeValue)
        ensures
            r@ == self@,
    {
        self.deep_copy()
    }
}

/// A byte string shows as an array with one number per byte, in order, each
/// the byte's unsigned value from 0 to 255.
pub proof fn lemma_bytes_json(b: Seq<u8>)
    ensures
        json_of(Term::Bytes(b)) matches Json::Array(a) && a.len() == b.len() && forall|i: int|
            0 <= i < b.len() ==> (#[trigger] a[i] matches Json::Number(x) && x as int == b[i] as int
                && 0 <= x <= 255),
{
}

} // verus!
