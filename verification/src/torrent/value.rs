//! The metainfo of a single-file torrent.
use vstd::prelude::*;
use vstd::string::StringSliceAdditionalSpecFns;

use crate::bencode::decode::decode;
use crate::bencode::dict::lookup;
use crate::bencode::encode::encode_dict;
use crate::bencode::grammar::{spec_decode, spec_encode};
use crate::bencode::model::{dict_get, entries_of, BencodeParseError, BencodeValue, ByteString, Failure, Term};
use crate::bencode::value::mismatch;
use crate::digest::{sha1, sha1_digest};
use crate::encoding::{hex_encode, hex_lower};
use crate::text::{utf8_lossy, utf8_text};

verus! {

/// A torrent's metainfo: where its tracker is, and what its single file is.
pub struct MetaInfo {
    pub announce: String,
    pub info: Info,
}

/// The `info` section: the file's length and name, how it is cut into
/// pieces, the SHA-1 of each piece, and the SHA-1 of the section itself.
pub struct Info {
    pub length: usize,
    pub name: String,
    pub piece_length: usize,
    pub pieces: Vec<[u8; 20]>,
    pub hash: [u8; 20],
}

/// Why metainfo could not be read.
#[derive(Debug)]
pub enum TorrentError {
    Bencode(BencodeParseError),
    MissingKey(String),
    InvalidValue(String),
}

/// The mathematical content of `MetaInfo`.
pub struct MetaSpec {
    pub announce: Seq<char>,
    pub length: int,
    pub name: Seq<char>,
    pub piece_length: int,
    pub pieces: Seq<Seq<u8>>,
    pub hash: Seq<u8>,
}

/// The mathematical content of `TorrentError`.
pub enum TorrentFailure {
    Bencode(Failure),
    MissingKey(Seq<char>),
    InvalidValue(Seq<char>),
}

impl View for MetaInfo {
    type V = MetaSpec;

    open spec fn view(&self) -> MetaSpec {
        MetaSpec {
            announce: self.announce@,
            length: self.info.length as int,
            name: self.info.name@,
            piece_length: self.info.piece_length as int,
            pieces: Seq::new(self.info.pieces@.len(), |i: int| self.info.pieces@[i]@),
            hash: self.info.hash@,
        }
    }
}

impl View for TorrentError {
    type V = TorrentFailure;

    open spec fn view(&self) -> TorrentFailure {
        match self {
            TorrentError::Bencode(e) => TorrentFailure::Bencode(e@),
            TorrentError::MissingKey(k) => TorrentFailure::MissingKey(k@),
            TorrentError::InvalidValue(m) => TorrentFailure::InvalidValue(m@),
        }
    }
}

/// The entry under `key`, which must be there.
pub open spec fn field(d: Seq<(Seq<u8>, Term)>, key: &str) -> Result<Term, TorrentFailure> {
    match dict_get(d, key.spec_bytes()) {
        Some(t) => Ok(t),
        None => Err(TorrentFailure::MissingKey(key@)),
    }
}

/// The byte string under `key`.
pub open spec fn bytes_field(d: Seq<(Seq<u8>, Term)>, key: &str) -> Result<Seq<u8>, TorrentFailure> {
    match field(d, key) {
        Ok(Term::Bytes(b)) => Ok(b),
        Ok(t) => Err(TorrentFailure::Bencode(mismatch("byte string"@, t))),
        Err(f) => Err(f),
    }
}

/// The dictionary under `key`.
pub open spec fn dict_field(d: Seq<(Seq<u8>, Term)>, key: &str) -> Result<
    Seq<(Seq<u8>, Term)>,
    TorrentFailure,
> {
    match field(d, key) {
        Ok(Term::Dict(e)) => Ok(e),
        Ok(t) => Err(TorrentFailure::Bencode(mismatch("dict"@, t))),
        Err(f) => Err(f),
    }
}

/// The integer under `key`, which must fit in a `usize`; `message` says
/// otherwise.
pub open spec fn size_field(d: Seq<(Seq<u8>, Term)>, key: &str, message: &str) -> Result<
    int,
    TorrentFailure,
> {
    match field(d, key) {
        Ok(Term::Int(x)) => if 0 <= x <= usize::MAX {
            Ok(x as int)
        } else {
            Err(TorrentFailure::InvalidValue(message@))
        },
        Ok(t) => Err(TorrentFailure::Bencode(mismatch("integer"@, t))),
        Err(f) => Err(f),
    }
}

/// The 20-byte piece hashes that `p` holds one after another.
pub open spec fn spec_pieces(p: Seq<u8>) -> Result<Seq<Seq<u8>>, TorrentFailure> {
    if p.len() % 20 != 0 {
        Err(TorrentFailure::InvalidValue("pieces is not multiple of 20"@))
    } else {
        Ok(Seq::new(p.len() / 20, |i: int| p.subrange(20 * i, 20 * i + 20)))
    }
}

/// What the metainfo in `bytes` holds: a dictionary with an `announce` byte
/// string and an `info` dictionary, which holds `length`, `name`,
/// `piece length` and `pieces`, read in that order. The info hash is the
/// SHA-1 of the bencoding of the `info` dictionary as decoded.
pub open spec fn spec_meta_info(bytes: Seq<u8>) -> Result<MetaSpec, TorrentFailure> {
    match spec_decode(bytes) {
        Err(f) => Err(TorrentFailure::Bencode(f)),
        Ok(Term::Dict(top)) => match bytes_field(top, "announce") {
            Err(f) => Err(f),
            Ok(announce) => match dict_field(top, "info") {
                Err(f) => Err(f),
                Ok(info) => match size_field(info, "length", "'length' is negative") {
                    Err(f) => Err(f),
                    Ok(length) => match bytes_field(info, "name") {
                        Err(f) => Err(f),
                        Ok(name) => match size_field(
                            info,
                            "piece length",
                            "'piece length' is negative",
                        ) {
                            Err(f) => Err(f),
                            Ok(piece_length) => match bytes_field(info, "pieces") {
                                Err(f) => Err(f),
                                Ok(p) => match spec_pieces(p) {
                                    Err(f) => Err(f),
                                    Ok(pieces) => Ok(
                                        MetaSpec {
                                            announce: utf8_text(announce),
                                            length,
                                            name: utf8_text(name),
                                            piece_length,
                                            pieces,
                                            hash: sha1(spec_encode(Term::Dict(info))),
                                        },
                                    ),
                                },
                            },
                        },
                    },
                },
            },
        },
        Ok(t) => Err(TorrentFailure::Bencode(mismatch("dict"@, t))),
    }
}

/// The value under `key`.
fn get_field<'a>(d: &'a Vec<(ByteString, BencodeValue)>, key: &str) -> (r: Result<
    &'a BencodeValue,
    TorrentError,
>)
    ensures
        match r {
            Ok(v) => field(entries_of(d@), key) == Ok::<Term, TorrentFailure>(v@),
            Err(e) => field(entries_of(d@), key) == Err::<Term, TorrentFailure>(e@),
        },
{
    match lookup(d, key.as_bytes()) {
        Some(v) => Ok(v),
        None => Err(TorrentError::MissingKey(key.to_owned())),
    }
}

fn get_bytes<'a>(d: &'a Vec<(ByteString, BencodeValue)>, key: &str) -> (r: Result<
    &'a [u8],
    TorrentError,
>)
    ensures
        match r {
            Ok(b) => bytes_field(entries_of(d@), key) == Ok::<Seq<u8>, TorrentFailure>(b@),
            Err(e) => bytes_field(entries_of(d@), key) == Err::<Seq<u8>, TorrentFailure>(e@),
        },
{
    match get_field(d, key) {
        Ok(v) => match v.as_bytes() {
            Ok(b) => Ok(b),
            Err(e) => Err(TorrentError::Bencode(e)),
        },
        Err(e) => Err(e),
    }
}

fn get_dict<'a>(d: &'a Vec<(ByteString, BencodeValue)>, key: &str) -> (r: Result<
    &'a Vec<(ByteString, BencodeValue)>,
    TorrentError,
>)
    ensures
        match r {
            Ok(e) => dict_field(entries_of(d@), key) == Ok::<
                Seq<(Seq<u8>, Term)>,
                TorrentFailure,
            >(entries_of(e@)),
            Err(e) => dict_field(entries_of(d@), key) == Err::<
                Seq<(Seq<u8>, Term)>,
                TorrentFailure,
            >(e@),
        },
{
    match get_field(d, key) {
        Ok(v) => match v.as_dict() {
            Ok(e) => Ok(e),
            Err(e) => Err(TorrentError::Bencode(e)),
        },
        Err(e) => Err(e),
    }
}

fn get_size(d: &Vec<(ByteString, BencodeValue)>, key: &str, message: &str) -> (r: Result<
    usize,
    TorrentError,
>)
    ensures
        match r {
            Ok(n) => size_field(entries_of(d@), key, message) == Ok::<int, TorrentFailure>(
                n as int,
            ),
            Err(e) => size_field(entries_of(d@), key, message) == Err::<int, TorrentFailure>(e@),
        },
{
    match get_field(d, key) {
        Ok(v) => match v.as_integer() {
            Ok(x) => {
                if 0 <= x && x as i128 <= usize::MAX as i128 {
                    Ok(x as usize)
                } else {
                    Err(TorrentError::InvalidValue(message.to_owned()))
                }
            },
            Err(e) => Err(TorrentError::Bencode(e)),
        },
        Err(e) => Err(e),
    }
}

/// Cuts `p` into 20-byte piece hashes.
fn split_pieces(p: &[u8]) -> (r: Result<Vec<[u8; 20]>, TorrentError>)
    ensures
        match r {
            Ok(v) => spec_pieces(p@) == Ok::<Seq<Seq<u8>>, TorrentFailure>(
                Seq::new(v@.len(), |i: int| v@[i]@),
            ),
            Err(e) => spec_pieces(p@) == Err::<Seq<Seq<u8>>, TorrentFailure>(e@),
        },
{
    if p.len() % 20 != 0 {
        return Err(TorrentError::InvalidValue("pieces is not multiple of 20".to_owned()));
    }
    let count = p.len() / 20;
    let mut out: Vec<[u8; 20]> = Vec::new();
    let mut i: usize = 0;
    while i < count
        invariant
            count == p@.len() / 20,
            p@.len() % 20 == 0,
            p@.len() == p.len(),
            i <= count,
            out@.len() == i,
            forall|k: int| 0 <= k < i ==> #[trigger] out@[k]@ == p@.subrange(20 * k, 20 * k + 20),
        decreases count - i,
    {
        assert(20 * i + 20 <= p@.len()) by (nonlinear_arith)
            requires
                i < count,
                count == p@.len() / 20,
        ;
        assert(p@.len() <= usize::MAX);
        let base = 20 * i;
        let mut piece = [0u8; 20];
        let mut j: usize = 0;
        while j < 20
            invariant
                base == 20 * i,
                base + 20 <= p@.len(),
                p@.len() == p.len(),
                i < count,
                count == p@.len() / 20,
                p@.len() % 20 == 0,
                j <= 20,
                forall|m: int| 0 <= m < j ==> piece@[m] == p@[20 * i + m],
            decreases 20 - j,
        {
            piece[j] = p[base + j];
            j += 1;
        }
        assert(piece@ =~= p@.subrange(20 * i, 20 * i + 20));
        out.push(piece);
        i += 1;
    }
    assert(Seq::new(out@.len(), |k: int| out@[k]@) =~= Seq::new(
        p@.len() / 20,
        |k: int| p@.subrange(20 * k, 20 * k + 20),
    ));
    Ok(out)
}

impl MetaInfo {
    /// Reads metainfo from its bencoded bytes (see `spec_meta_info`).
    pub fn from_bytes(bytes: &[u8]) -> (r: Result<MetaInfo, TorrentError>)
        ensures
            match r {
                Ok(m) => spec_meta_info(bytes@) == Ok::<MetaSpec, TorrentFailure>(m@),
                Err(e) => spec_meta_info(bytes@) == Err::<MetaSpec, TorrentFailure>(e@),
            },
    {
        let parsed = match decode(bytes) {
            Ok(v) => v,
            Err(e) => {
                return Err(TorrentError::Bencode(e));
            },
        };
        let dict = match parsed.as_dict() {
            Ok(d) => d,
            Err(e) => {
                return Err(TorrentError::Bencode(e));
            },
        };
        let announce = match get_bytes(dict, "announce") {
            Ok(b) => b,
            Err(e) => {
                return Err(e);
            },
        };
        let info = match get_dict(dict, "info") {
            Ok(d) => d,
            Err(e) => {
                return Err(e);
            },
        };
        let length = match get_size(info, "length", "'length' is negative") {
            Ok(n) => n,
            Err(e) => {
                return Err(e);
            },
        };
        let name = match get_bytes(info, "name") {
            Ok(b) => b,
            Err(e) => {
                return Err(e);
            },
        };
        let piece_length = match get_size(info, "piece length", "'piece length' is negative") {
            Ok(n) => n,
            Err(e) => {
                return Err(e);
            },
        };
        let piece_bytes = match get_bytes(info, "pieces") {
            Ok(b) => b,
            Err(e) => {
                return Err(e);
            },
        };
        let pieces = match split_pieces(piece_bytes) {
            Ok(p) => p,
            Err(e) => {
                return Err(e);
            },
        };
        let hash = sha1_digest(encode_dict(info).as_slice());
        Ok(
            MetaInfo {
                announce: utf8_lossy(announce),
                info: Info {
                    length,
                    name: utf8_lossy(name),
                    piece_length,
                    pieces,
                    hash,
                },
            },
        )
    }
}

impl Info {
    /// The info hash in lowercase hex.
    pub fn hash_hex(&self) -> (r: String)
        ensures
            r@ == hex_lower(self.hash@),
    {
        hex_encode(self.hash.as_slice())
    }

    /// Each piece hash in lowercase hex, in order.
    pub fn piece_hashes_hex(&self) -> (r: Vec<String>)
        ensures
            r@.len() == self.pieces@.len(),
            forall|i: int| 0 <= i < r@.len() ==> #[trigger] r@[i]@ == hex_lower(self.pieces@[i]@),
    {
        let mut out: Vec<String> = Vec::new();
        let mut i: usize = 0;
        while i < self.pieces.len()
            invariant
                i <= self.pieces@.len(),
                out@.len() == i,
                forall|k: int| 0 <= k < i ==> #[trigger] out@[k]@ == hex_lower(self.pieces@[k]@),
            decreases self.pieces@.len() - i,
        {
            out.push(hex_encode(self.pieces[i].as_slice()));
            i += 1;
        }
        out
    }
}

/// The info hash of metainfo that reads is the SHA-1 of the bencoding of the
/// whole `info` dictionary as decoded from the file, every entry of it
/// counted, known keys or not.
pub proof fn lemma_info_hash(bytes: Seq<u8>)
    ensures
        spec_meta_info(bytes) matches Ok(m) ==> (spec_decode(bytes) matches Ok(Term::Dict(top))
            && dict_get(top, "info".spec_bytes()) matches Some(t) && m.hash == sha1(
            spec_encode(t),
        )),
{
}

} // verus!
