use vstd::prelude::*;

verus! {

/// The raw bytes of a bencoded byte string.
pub type ByteString = Vec<u8>;

/// A decoded bencode value.
///
/// A dictionary is held as a vector of (key, value) entries. A dictionary that
/// the decoder builds keeps its keys strictly increasing in lexicographic byte
/// order, as a sorted map does (see `wf_term`).
pub enum BencodeValue {
    Integer(i64),
    ByteString(ByteString),
    List(Vec<BencodeValue>),
    Dict(Vec<(ByteString, BencodeValue)>),
}

/// The mathematical value that a `BencodeValue` stands for.
pub enum Term {
    Int(i64),
    Bytes(Seq<u8>),
    List(Seq<Term>),
    Dict(Seq<(Seq<u8>, Term)>),
}

/// The term of a value.
pub open spec fn term_of(v: BencodeValue) -> Term
    decreases v,
{
    match v {
        BencodeValue::Integer(x) => Term::Int(x),
        BencodeValue::ByteString(s) => Term::Bytes(s@),
        BencodeValue::List(items) => Term::List(terms_of(items@)),
        BencodeValue::Dict(entries) => Term::Dict(entries_of(entries@)),
    }
}

/// The terms of a sequence of values, element by element.
pub open spec fn terms_of(s: Seq<BencodeValue>) -> Seq<Term>
    decreases s,
{
    if s.len() == 0 {
        Seq::empty()
    } else {
        terms_of(s.drop_last()).push(term_of(s.last()))
    }
}

/// The (key, term) entries of a sequence of dictionary entries.
pub open spec fn entries_of(s: Seq<(ByteString, BencodeValue)>) -> Seq<(Seq<u8>, Term)>
    decreases s,
{
    if s.len() == 0 {
        Seq::empty()
    } else {
        entries_of(s.drop_last()).push((s.last().0@, term_of(s.last().1)))
    }
}

impl View for BencodeValue {
    type V = Term;

    open spec fn view(&self) -> Term {
        term_of(*self)
    }
}

pub proof fn lemma_terms_of(s: Seq<BencodeValue>)
    ensures
        terms_of(s).len() == s.len(),
        forall|i: int| 0 <= i < s.len() ==> #[trigger] terms_of(s)[i] == term_of(s[i]),
    decreases s.len(),
{
    if s.len() > 0 {
        lemma_terms_of(s.drop_last());
    }
}

pub proof fn lemma_entries_of(s: Seq<(ByteString, BencodeValue)>)
    ensures
        entries_of(s).len() == s.len(),
        forall|i: int|
            0 <= i < s.len() ==> #[trigger] entries_of(s)[i] == (s[i].0@, term_of(s[i].1)),
    decreases s.len(),
{
    if s.len() > 0 {
        lemma_entries_of(s.drop_last());
    }
}

/// Lexicographic order on byte strings, the order of `Vec<u8>` keys in a
/// sorted map.
pub open spec fn lex_lt(a: Seq<u8>, b: Seq<u8>) -> bool
    decreases a.len(),
{
    if a.len() == 0 {
        b.len() > 0
    } else if b.len() == 0 {
        false
    } else if a[0] != b[0] {
        a[0] < b[0]
    } else {
        lex_lt(a.drop_first(), b.drop_first())
    }
}

/// The keys of the entries are strictly increasing.
pub open spec fn keys_sorted(d: Seq<(Seq<u8>, Term)>) -> bool {
    forall|i: int, j: int| 0 <= i < j < d.len() ==> lex_lt(#[trigger] d[i].0, #[trigger] d[j].0)
}

/// A term is well formed when every dictionary in it has strictly increasing keys.
pub open spec fn wf_term(t: Term) -> bool
    decreases t,
{
    match t {
        Term::Int(_) => true,
        Term::Bytes(_) => true,
        Term::List(ts) => forall|i: int| 0 <= i < ts.len() ==> wf_term(#[trigger] ts[i]),
        Term::Dict(d) => keys_sorted(d) && forall|i: int| 0 <= i < d.len() ==> wf_term(#[trigger] d[i].1),
    }
}

/// The entries of `d` with the entry (`k`, `v`) put in: it replaces the entry
/// with key `k` if there is one, and otherwise stands before the first entry
/// whose key is greater than `k`.
pub open spec fn dict_insert(d: Seq<(Seq<u8>, Term)>, k: Seq<u8>, v: Term) -> Seq<(Seq<u8>, Term)>
    decreases d.len(),
{
    if d.len() == 0 {
        seq![(k, v)]
    } else if d[0].0 == k {
        seq![(k, v)] + d.drop_first()
    } else if lex_lt(k, d[0].0) {
        seq![(k, v)] + d
    } else {
        seq![d[0]] + dict_insert(d.drop_first(), k, v)
    }
}

/// The term stored under key `k`, if any.
pub open spec fn dict_get(d: Seq<(Seq<u8>, Term)>, k: Seq<u8>) -> Option<Term>
    decreases d.len(),
{
    if d.len() == 0 {
        None
    } else if d[0].0 == k {
        Some(d[0].1)
    } else {
        dict_get(d.drop_first(), k)
    }
}

/// Why a decode failed.
#[derive(Debug)]
pub enum BencodeParseError {
    UnexpectedEof,
    MissingDelimiter { delimiter: char },
    InvalidInteger { reason: String },
    InvalidUtf8(std::str::Utf8Error),
    ShortInput,
    TrailingData,
    TypeMismatch { expected: &'static str, actual: &'static str },
    InvalidDictKey,
    UnsortedKeys,
    UnknownType(char),
    InvalidListElement,
    InvalidDictValue,
}

/// The name this error type also goes by.
pub type ParseError = BencodeParseError;

/// `std::str::Utf8Error`, the error of a failed UTF-8 check.
#[verifier::external_type_specification]
#[verifier::external_body]
pub struct ExUtf8Error(std::str::Utf8Error);

/// The mathematical content of a `BencodeParseError`.
pub enum Failure {
    UnexpectedEof,
    MissingDelimiter(char),
    InvalidInteger(Seq<char>),
    InvalidUtf8,
    ShortInput,
    TrailingData,
    TypeMismatch(Seq<char>, Seq<char>),
    InvalidDictKey,
    UnsortedKeys,
    UnknownType(char),
    InvalidListElement,
    InvalidDictValue,
}

impl View for BencodeParseError {
    type V = Failure;

    open spec fn view(&self) -> Failure {
        match self {
            BencodeParseError::UnexpectedEof => Failure::UnexpectedEof,
            BencodeParseError::MissingDelimiter { delimiter } => Failure::MissingDelimiter(*delimiter),
            BencodeParseError::InvalidInteger { reason } => Failure::InvalidInteger(reason@),
            BencodeParseError::InvalidUtf8(_) => Failure::InvalidUtf8,
            BencodeParseError::ShortInput => Failure::ShortInput,
            BencodeParseError::TrailingData => Failure::TrailingData,
            BencodeParseError::TypeMismatch { expected, actual } => Failure::TypeMismatch(
                expected@,
                actual@,
            ),
            BencodeParseError::InvalidDictKey => Failure::InvalidDictKey,
            BencodeParseError::UnsortedKeys => Failure::UnsortedKeys,
            BencodeParseError::UnknownType(c) => Failure::UnknownType(*c),
            BencodeParseError::InvalidListElement => Failure::InvalidListElement,
            BencodeParseError::InvalidDictValue => Failure::InvalidDictValue,
        }
    }
}

} // verus!
