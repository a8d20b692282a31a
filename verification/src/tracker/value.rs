//! What is sent to a tracker and what comes back.
use vstd::prelude::*;
use vstd::string::StringSliceAdditionalSpecFns;
use vstd::utf8::{decode_utf8};

use crate::bencode::encode::{push_all, push_decimal};
use crate::bencode::grammar::decimal;
use crate::bencode::model::{BencodeParseError, Failure};
use crate::encoding::{percent_encode, percent_encode_byte, url_encode_binary};
use crate::text::{lemma_ascii_str_bytes, lemma_ascii_valid_utf8, string_from_utf8};

verus! {

/// Why a tracker could not be asked, or its answer not read.
#[derive(Debug)]
pub enum TrackerError {
    InvalidUrl(String),
    Http(reqwest::Error),
    Bencode(BencodeParseError),
    InvalidResponse(String),
}

/// `reqwest::Error`, the error of a failed HTTP request.
#[verifier::external_type_specification]
#[verifier::external_body]
pub struct ExReqwestError(reqwest::Error);

/// The mathematical content of a `TrackerError`.
pub enum TrackerFailure {
    InvalidUrl(Seq<char>),
    Http,
    Bencode(Failure),
    InvalidResponse(Seq<char>),
}

impl View for TrackerError {
    type V = TrackerFailure;

    open spec fn view(&self) -> TrackerFailure {
        match self {
            TrackerError::InvalidUrl(m) => TrackerFailure::InvalidUrl(m@),
            TrackerError::Http(_) => TrackerFailure::Http,
            TrackerError::Bencode(e) => TrackerFailure::Bencode(e@),
            TrackerError::InvalidResponse(m) => TrackerFailure::InvalidResponse(m@),
        }
    }
}

/// An announce request.
pub struct TrackerRequest<'a> {
    pub url: &'a str,
    pub info_hash: &'a [u8],
    pub peer_id: &'a [u8],
    pub port: u16,
    pub uploaded: usize,
    pub downloaded: usize,
    pub left: usize,
    pub compact: u8,
}

/// A peer's IPv4 address and port, as a tracker's compact answer lists it.
#[derive(Debug, Clone, Copy, PartialEq, Eq)]
pub struct PeerAddr {
    pub ip: [u8; 4],
    pub port: u16,
}

/// A tracker's answer: how long to wait before asking again, and the peers.
pub struct TrackerResponse {
    pub interval: usize,
    pub peers: Vec<PeerAddr>,
}

/// The peer id this client announces itself with.
pub const PEER_ID: [u8; 20] = [
    0x19, 0x01, 0xee, 0x73, 0xbd, 0x3f, 0xed, 0x81, 0x82, 0x56, 0x77, 0xcb, 0x94, 0xdd, 0x87,
    0x28, 0x05, 0xe9, 0xa2, 0x47,
];

/// The query string of an announce request, as bytes: each field as
/// `name=value`, joined by `&`; the two binary fields percent-encoded, the
/// numbers in decimal.
pub open spec fn query_bytes(req: TrackerRequest) -> Seq<u8> {
    "info_hash=".spec_bytes() + percent_encode(req.info_hash@) + "&peer_id=".spec_bytes()
        + percent_encode(req.peer_id@) + "&port=".spec_bytes() + decimal(req.port as nat)
        + "&uploaded=".spec_bytes() + decimal(req.uploaded as nat) + "&downloaded=".spec_bytes()
        + decimal(req.downloaded as nat) + "&left=".spec_bytes() + decimal(req.left as nat)
        + "&compact=".spec_bytes() + decimal(req.compact as nat)
}

proof fn lemma_decimal_ascii(n: nat)
    ensures
        forall|i: int| 0 <= i < decimal(n).len() ==> #[trigger] decimal(n)[i] < 128,
    decreases n,
{
    if n >= 10 {
        lemma_decimal_ascii(n / 10);
        assert forall|i: int| 0 <= i < decimal(n).len() implies #[trigger] decimal(n)[i] < 128 by {
            if i < decimal(n).len() - 1 {
                assert(decimal(n)[i] == decimal(n / 10)[i]);
            }
        }
    }
}

proof fn lemma_percent_ascii(data: Seq<u8>)
    ensures
        forall|i: int| 0 <= i < percent_encode(data).len() ==> #[trigger] percent_encode(data)[i]
            < 128,
    decreases data.len(),
{
    if data.len() > 0 {
        lemma_percent_ascii(data.drop_first());
        let head = percent_encode_byte(data[0]);
        let rest = percent_encode(data.drop_first());
        assert forall|i: int| 0 <= i < head.len() implies #[trigger] head[i] < 128 by {}
        assert forall|i: int| 0 <= i < percent_encode(data).len() implies #[trigger] percent_encode(
            data,
        )[i] < 128 by {
            if i < head.len() {
                assert(percent_encode(data)[i] == head[i]);
            } else {
                assert(percent_encode(data)[i] == rest[i - head.len()]);
            }
        }
    }
}

proof fn lemma_concat_ascii(a: Seq<u8>, b: Seq<u8>)
    requires
        forall|i: int| 0 <= i < a.len() ==> #[trigger] a[i] < 128,
        forall|i: int| 0 <= i < b.len() ==> #[trigger] b[i] < 128,
    ensures
        forall|i: int| 0 <= i < (a + b).len() ==> #[trigger] (a + b)[i] < 128,
{
    assert forall|i: int| 0 <= i < (a + b).len() implies #[trigger] (a + b)[i] < 128 by {
        if i < a.len() {
            assert((a + b)[i] == a[i]);
        } else {
            assert((a + b)[i] == b[i - a.len()]);
        }
    }
}

/// Appends a literal's bytes.
fn push_str(out: &mut Vec<u8>, s: &str)
    ensures
        final(out)@ == old(out)@ + s.spec_bytes(),
{
    push_all(out, s.as_bytes());
}

impl<'a> TrackerRequest<'a> {
    /// The query string of this request (see `query_bytes`).
    pub fn to_query(&self) -> (r: String)
        ensures
            r@ == decode_utf8(query_bytes(*self)),
    {
        let mut out: Vec<u8> = Vec::new();
        push_str(&mut out, "info_hash=");
        let e = url_encode_binary(self.info_hash);
        push_all(&mut out, e.as_slice());
        push_str(&mut out, "&peer_id=");
        let e = url_encode_binary(self.peer_id);
        push_all(&mut out, e.as_slice());
        push_str(&mut out, "&port=");
        push_decimal(&mut out, self.port as u64);
        push_str(&mut out, "&uploaded=");
        push_decimal(&mut out, self.uploaded as u64);
        push_str(&mut out, "&downloaded=");
        push_decimal(&mut out, self.downloaded as u64);
        push_str(&mut out, "&left=");
        push_decimal(&mut out, self.left as u64);
        push_str(&mut out, "&compact=");
        push_decimal(&mut out, self.compact as u64);
        proof {
            reveal_strlit("info_hash=");
            reveal_strlit("&peer_id=");
            reveal_strlit("&port=");
            reveal_strlit("&uploaded=");
            reveal_strlit("&downloaded=");
            reveal_strlit("&left=");
            reveal_strlit("&compact=");
            lemma_ascii_str_bytes("info_hash=");
            lemma_ascii_str_bytes("&peer_id=");
            lemma_ascii_str_bytes("&port=");
            lemma_ascii_str_bytes("&uploaded=");
            lemma_ascii_str_bytes("&downloaded=");
            lemma_ascii_str_bytes("&left=");
            lemma_ascii_str_bytes("&compact=");
            lemma_percent_ascii(self.info_hash@);
            lemma_percent_ascii(self.peer_id@);
            lemma_decimal_ascii(self.port as nat);
            lemma_decimal_ascii(self.uploaded as nat);
            lemma_decimal_ascii(self.downloaded as nat);
            lemma_decimal_ascii(self.left as nat);
            lemma_decimal_ascii(self.compact as nat);
            let q = query_bytes(*self);
            assert(out@ =~= q);
            let a0 = "info_hash=".spec_bytes();
            lemma_concat_ascii(a0, percent_encode(self.info_hash@));
            let a1 = a0 + percent_encode(self.info_hash@);
            lemma_concat_ascii(a1, "&peer_id=".spec_bytes());
            let a2 = a1 + "&peer_id=".spec_bytes();
            lemma_concat_ascii(a2, percent_encode(self.peer_id@));
            let a3 = a2 + percent_encode(self.peer_id@);
            lemma_concat_ascii(a3, "&port=".spec_bytes());
            let a4 = a3 + "&port=".spec_bytes();
            lemma_concat_ascii(a4, decimal(self.port as nat));
            let a5 = a4 + decimal(self.port as nat);
            lemma_concat_ascii(a5, "&uploaded=".spec_bytes());
            let a6 = a5 + "&uploaded=".spec_bytes();
            lemma_concat_ascii(a6, decimal(self.uploaded as nat));
            let a7 = a6 + decimal(self.uploaded as nat);
            lemma_concat_ascii(a7, "&downloaded=".spec_bytes());
            let a8 = a7 + "&downloaded=".spec_bytes();
            lemma_concat_ascii(a8, decimal(self.downloaded as nat));
            let a9 = a8 + decimal(self.downloaded as nat);
            lemma_concat_ascii(a9, "&left=".spec_bytes());
            let a10 = a9 + "&left=".spec_bytes();
            lemma_concat_ascii(a10, decimal(self.left as nat));
            let a11 = a10 + decimal(self.left as nat);
            lemma_concat_ascii(a11, "&compact=".spec_bytes());
            let a12 = a11 + "&compact=".spec_bytes();
            lemma_concat_ascii(a12, decimal(self.compact as nat));
            let a13 = a12 + decimal(self.compact as nat);
            assert(a13 == q);
            lemma_ascii_valid_utf8(q);
        }
        string_from_utf8(out)
    }
}

} // verus!
