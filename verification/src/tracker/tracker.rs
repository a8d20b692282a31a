//! Building an announce request, and reading a tracker's answer.
use vstd::prelude::*;
use vstd::string::{StrSliceExecFns, StringSliceAdditionalSpecFns};
use vstd::utf8::decode_utf8;

use super::value::{
    query_bytes, PeerAddr, TrackerError, TrackerFailure, TrackerRequest, TrackerResponse, PEER_ID,
};
use crate::bencode::decode::decode;
use crate::bencode::dict::lookup;
use crate::bencode::grammar::spec_decode;
use crate::bencode::model::{dict_get, Term};
use crate::bencode::value::mismatch;
use crate::torrent::value::MetaInfo;
use crate::url_ops::{
    parse_url, url_error_message, url_normalized, url_parses, url_scheme, url_scheme_of,
    url_set_query, url_with_query,
};

verus! {

/// The port this client says it listens on.
pub const LISTEN_PORT: u16 = 6881;

/// The announce request for a torrent that has not yet been downloaded at
/// all: nothing uploaded or downloaded, the whole length left, compact
/// answer asked for.
pub fn build_request(torrent: &MetaInfo) -> (r: TrackerRequest<'_>)
    ensures
        r.url@ == torrent.announce@,
        r.info_hash@ == torrent.info.hash@,
        r.peer_id@ == PEER_ID@,
        r.port == LISTEN_PORT,
        r.uploaded == 0,
        r.downloaded == 0,
        r.left == torrent.info.length,
        r.compact == 1,
{
    TrackerRequest {
        url: torrent.announce.as_str(),
        info_hash: torrent.info.hash.as_slice(),
        peer_id: PEER_ID.as_slice(),
        uploaded: 0,
        downloaded: 0,
        left: torrent.info.length,
        compact: 1,
        port: LISTEN_PORT,
    }
}

/// The scheme starts with `http`.
pub open spec fn is_http(scheme: Seq<char>) -> bool {
    scheme.len() >= 4 && scheme[0] == 'h' && scheme[1] == 't' && scheme[2] == 't' && scheme[3]
        == 'p'
}

/// The URL to ask the tracker at: the announce URL, which must parse and
/// have an `http...` scheme, with the request's query string.
pub open spec fn spec_tracker_url(url: Seq<char>, query: Seq<char>) -> Result<
    Seq<char>,
    TrackerFailure,
> {
    if !url_parses(url) {
        Err(TrackerFailure::InvalidUrl(url_error_message(url)))
    } else if !is_http(url_scheme_of(url_normalized(url))) {
        Err(TrackerFailure::InvalidUrl(url_normalized(url)))
    } else {
        Ok(url_with_query(url_normalized(url), query))
    }
}

/// Whether the scheme starts with `http`.
fn scheme_is_http(scheme: &str) -> (r: bool)
    ensures
        r == is_http(scheme@),
{
    if scheme.unicode_len() < 4 {
        return false;
    }
    scheme.get_char(0) == 'h' && scheme.get_char(1) == 't' && scheme.get_char(2) == 't'
        && scheme.get_char(3) == 'p'
}

/// The URL to ask the tracker at for this request (see `spec_tracker_url`).
pub fn tracker_url(params: &TrackerRequest) -> (r: Result<String, TrackerError>)
    ensures
        match r {
            Ok(u) => spec_tracker_url(params.url@, decode_utf8(query_bytes(*params))) == Ok::<
                Seq<char>,
                TrackerFailure,
            >(u@),
            Err(e) => spec_tracker_url(params.url@, decode_utf8(query_bytes(*params))) == Err::<
                Seq<char>,
                TrackerFailure,
            >(e@),
        },
{
    let url = match parse_url(params.url) {
        Ok(u) => u,
        Err(m) => {
            return Err(TrackerError::InvalidUrl(m));
        },
    };
    let scheme = url_scheme(url.as_str());
    if !scheme_is_http(scheme.as_str()) {
        return Err(TrackerError::InvalidUrl(url));
    }
    let query = params.to_query();
    Ok(url_set_query(url.as_str(), query.as_str()))
}

/// The peer that the six bytes at `6 * i` describe: four bytes of IPv4
/// address, then the port, big-endian.
pub open spec fn compact_peer(p: Seq<u8>, i: int) -> (Seq<u8>, int) {
    (p.subrange(6 * i, 6 * i + 4), p[6 * i + 4] * 256 + p[6 * i + 5])
}

/// The peers of a compact list, six bytes each; bytes after the last whole
/// six are left out.
pub open spec fn compact_peers(p: Seq<u8>) -> Seq<(Seq<u8>, int)> {
    Seq::new(p.len() / 6, |i: int| compact_peer(p, i))
}

/// The peers of a response as (address, port) pairs.
pub open spec fn peer_views(v: Seq<PeerAddr>) -> Seq<(Seq<u8>, int)> {
    Seq::new(v.len(), |i: int| (v[i].ip@, v[i].port as int))
}

/// What a tracker's answer holds: a dictionary with an integer `interval`
/// (taken as a `usize` the way `as` casts it) and a compact `peers` byte
/// string.
pub open spec fn spec_response(bytes: Seq<u8>) -> Result<(int, Seq<(Seq<u8>, int)>), TrackerFailure> {
    match spec_decode(bytes) {
        Err(f) => Err(TrackerFailure::Bencode(f)),
        Ok(Term::Dict(d)) => match dict_get(d, "interval".spec_bytes()) {
            None => Err(TrackerFailure::InvalidResponse("missing 'interval'"@)),
            Some(Term::Int(x)) => match dict_get(d, "peers".spec_bytes()) {
                None => Err(TrackerFailure::InvalidResponse("missing 'peers'"@)),
                Some(Term::Bytes(p)) => Ok((x as usize as int, compact_peers(p))),
                Some(t) => Err(TrackerFailure::Bencode(mismatch("byte string"@, t))),
            },
            Some(t) => Err(TrackerFailure::Bencode(mismatch("integer"@, t))),
        },
        Ok(t) => Err(TrackerFailure::Bencode(mismatch("dict"@, t))),
    }
}

/// The peers of a compact list.
fn read_peers(p: &[u8]) -> (r: Vec<PeerAddr>)
    ensures
        peer_views(r@) == compact_peers(p@),
{
    let count = p.len() / 6;
    let mut out: Vec<PeerAddr> = Vec::new();
    let mut i: usize = 0;
    while i < count
        invariant
            count == p@.len() / 6,
            p@.len() == p.len(),
            i <= count,
            out@.len() == i,
            forall|k: int| 0 <= k < i ==> (#[trigger] out@[k]).ip@ == compact_peer(p@, k).0 && out@[k].port as int == compact_peer(p@, k).1,
        decreases count - i,
    {
        assert(6 * i + 6 <= p@.len()) by (nonlinear_arith)
            requires
                i < count,
                count == p@.len() / 6,
        ;
        let b = 6 * i;
        let ip = [p[b], p[b + 1], p[b + 2], p[b + 3]];
        let port = (p[b + 4] as u16) * 256 + (p[b + 5] as u16);
        assert(ip@ =~= p@.subrange(6 * i, 6 * i + 4));
        out.push(PeerAddr { ip, port });
        i += 1;
    }
    assert(peer_views(out@) =~= compact_peers(p@));
    out
}

/// Reads a tracker's answer (see `spec_response`).
pub fn parse_response(bytes: &[u8]) -> (r: Result<TrackerResponse, TrackerError>)
    ensures
        match r {
            Ok(resp) => spec_response(bytes@) == Ok::<(int, Seq<(Seq<u8>, int)>), TrackerFailure>(
                (resp.interval as int, peer_views(resp.peers@)),
            ),
            Err(e) => spec_response(bytes@) == Err::<(int, Seq<(Seq<u8>, int)>), TrackerFailure>(
                e@,
            ),
        },
{
    let decoded = match decode(bytes) {
        Ok(v) => v,
        Err(e) => {
            return Err(TrackerError::Bencode(e));
        },
    };
    let dict = match decoded.as_dict() {
        Ok(d) => d,
        Err(e) => {
            return Err(TrackerError::Bencode(e));
        },
    };
    let interval = match lookup(dict, "interval".as_bytes()) {
        None => {
            return Err(TrackerError::InvalidResponse("missing 'interval'".to_owned()));
        },
        Some(v) => match v.as_integer() {
            Ok(x) => x as usize,
            Err(e) => {
                return Err(TrackerError::Bencode(e));
            },
        },
    };
    let peers = match lookup(dict, "peers".as_bytes()) {
        None => {
            return Err(TrackerError::InvalidResponse("missing 'peers'".to_owned()));
        },
        Some(v) => match v.as_bytes() {
            Ok(p) => read_peers(p),
            Err(e) => {
                return Err(TrackerError::Bencode(e));
            },
        },
    };
    Ok(TrackerResponse { interval, peers })
}

/// A scheme counts as `http` exactly when its first four characters are
/// `h`, `t`, `t`, `p`, whatever follows them: `http` and `https` both do.
pub proof fn lemma_http_schemes(scheme: Seq<char>)
    ensures
        is_http(scheme) <==> (scheme.len() >= 4 && scheme.take(4) == seq!['h', 't', 't', 'p']),
        is_http(seq!['h', 't', 't', 'p']),
        is_http(seq!['h', 't', 't', 'p', 's']),
{
    if scheme.len() >= 4 && scheme.take(4) == seq!['h', 't', 't', 'p'] {
        assert(scheme[0] == scheme.take(4)[0]);
        assert(scheme[1] == scheme.take(4)[1]);
        assert(scheme[2] == scheme.take(4)[2]);
        assert(scheme[3] == scheme.take(4)[3]);
    }
    if is_http(scheme) {
        assert(scheme.take(4) =~= seq!['h', 't', 't', 'p']);
    }
}

/// A URL that parses and whose scheme is `http` or `https` is asked at as it
/// is, with the request's query set on it.
pub proof fn lemma_http_urls_accepted(url: Seq<char>, query: Seq<char>)
    requires
        url_parses(url),
        url_scheme_of(url_normalized(url)) == seq!['h', 't', 't', 'p'] || url_scheme_of(
            url_normalized(url),
        ) == seq!['h', 't', 't', 'p', 's'],
    ensures
        spec_tracker_url(url, query) == Ok::<Seq<char>, TrackerFailure>(
            url_with_query(url_normalized(url), query),
        ),
{
    lemma_http_schemes(url_scheme_of(url_normalized(url)));
}

/// A compact peer list `p` gives one peer for each whole six bytes, in
/// order, and no more: peer `i` has the address `p[6i..6i+4]` and the port
/// `p[6i+4] * 256 + p[6i+5]`.
pub proof fn lemma_compact_peers(p: Seq<u8>)
    ensures
        compact_peers(p).len() == p.len() / 6,
        forall|i: int|
            0 <= i < p.len() / 6 ==> (#[trigger] compact_peers(p)[i]).0 == p.subrange(6 * i, 6 * i + 4)
                && compact_peers(p)[i].1 == p[6 * i + 4] as int * 256 + p[6 * i + 5] as int,
{
}

} // verus!
