//! Messages of the peer wire protocol.
use vstd::prelude::*;

verus! {

/// The kinds of peer messages, in the order of their codes `0..=8`.
#[derive(Debug, Clone, Copy, PartialEq, Eq, Structural)]
pub enum PeerMessageType {
    Choke,
    Unchoke,
    Interested,
    NotInterested,
    Have,
    Bitfield,
    Request,
    Piece,
    Cancel,
}

/// What went wrong with a peer.
#[derive(Debug)]
pub enum PeerError {
    Tcp(std::io::Error),
    NoConnection(String),
    InvalidPiece,
    InvalidMessageType(u8),
}

/// `std::io::Error`, the error of a failed read or write.
#[verifier::external_type_specification]
#[verifier::external_body]
pub struct ExIoError(std::io::Error);

/// A peer message: a keep-alive, or a length, a kind and a payload.
pub enum PeerMessage {
    KeepAlive,
    Message { length: u32, kind: PeerMessageType, payload: Vec<u8> },
}

/// The code of each kind of message.
pub open spec fn kind_code(k: PeerMessageType) -> u8 {
    match k {
        PeerMessageType::Choke => 0,
        PeerMessageType::Unchoke => 1,
        PeerMessageType::Interested => 2,
        PeerMessageType::NotInterested => 3,
        PeerMessageType::Have => 4,
        PeerMessageType::Bitfield => 5,
        PeerMessageType::Request => 6,
        PeerMessageType::Piece => 7,
        PeerMessageType::Cancel => 8,
    }
}

/// The four bytes of `n`, most significant first.
pub open spec fn be32(n: u32) -> Seq<u8> {
    seq![
        (n / 0x100_0000) as u8,
        ((n / 0x1_0000) % 0x100) as u8,
        ((n / 0x100) % 0x100) as u8,
        (n % 0x100) as u8,
    ]
}

/// The number that four bytes spell, most significant first.
pub open spec fn be32_value(b: Seq<u8>) -> int {
    b[0] * 0x100_0000 + b[1] * 0x1_0000 + b[2] * 0x100 + b[3]
}

/// The bytes of a message on the wire: four zero bytes for a keep-alive;
/// otherwise its length, its kind's code and its payload.
pub open spec fn message_bytes(m: PeerMessage) -> Seq<u8> {
    match m {
        PeerMessage::KeepAlive => seq![0u8, 0u8, 0u8, 0u8],
        PeerMessage::Message { length, kind, payload } => be32(length) + seq![kind_code(kind)]
            + payload@,
    }
}

/// The four bytes of `n`, most significant first.
pub fn to_be_bytes(n: u32) -> (r: [u8; 4])
    ensures
        r@ == be32(n),
{
    let r = [
        (n / 0x100_0000) as u8,
        ((n / 0x1_0000) % 0x100) as u8,
        ((n / 0x100) % 0x100) as u8,
        (n % 0x100) as u8,
    ];
    assert(r@ =~= be32(n));
    r
}

/// The length that a message's first four bytes give, most significant
/// first.
pub fn frame_length(header: &[u8; 4]) -> (r: u32)
    ensures
        r as int == be32_value(header@),
{
    (header[0] as u32) * 0x100_0000 + (header[1] as u32) * 0x1_0000 + (header[2] as u32) * 0x100
        + (header[3] as u32)
}

/// How a frame goes on after its four length bytes: it is a keep-alive,
/// or a message of that length, whose kind byte is followed by
/// `payload_length` bytes of payload.
pub enum FrameStart {
    KeepAlive,
    Message { length: u32, payload_length: u32 },
}

/// What the four length bytes of a frame call for: a keep-alive when the
/// length is zero; otherwise a message whose payload is the length less its
/// kind byte.
pub fn frame_start(header: &[u8; 4]) -> (r: FrameStart)
    ensures
        be32_value(header@) == 0 ==> r is KeepAlive,
        be32_value(header@) != 0 ==> (r matches FrameStart::Message { length, payload_length }
            && length as int == be32_value(header@) && payload_length as int == length - 1),
{
    let length = frame_length(header);
    if length == 0 {
        FrameStart::KeepAlive
    } else {
        FrameStart::Message { length, payload_length: length - 1 }
    }
}

impl PeerMessageType {
    /// The code of this kind.
    pub fn code(self) -> (r: u8)
        ensures
            r == kind_code(self),
    {
        match self {
            PeerMessageType::Choke => 0,
            PeerMessageType::Unchoke => 1,
            PeerMessageType::Interested => 2,
            PeerMessageType::NotInterested => 3,
            PeerMessageType::Have => 4,
            PeerMessageType::Bitfield => 5,
            PeerMessageType::Request => 6,
            PeerMessageType::Piece => 7,
            PeerMessageType::Cancel => 8,
        }
    }

    /// The kind with code `value`; there is one for each code up to 8.
    pub fn from_code(value: u8) -> (r: Result<PeerMessageType, PeerError>)
        ensures
            value <= 8 ==> (r matches Ok(k) && kind_code(k) == value),
            value > 8 ==> (r matches Err(PeerError::InvalidMessageType(v)) && v == value),
    {
        match value {
            0 => Ok(PeerMessageType::Choke),
            1 => Ok(PeerMessageType::Unchoke),
            2 => Ok(PeerMessageType::Interested),
            3 => Ok(PeerMessageType::NotInterested),
            4 => Ok(PeerMessageType::Have),
            5 => Ok(PeerMessageType::Bitfield),
            6 => Ok(PeerMessageType::Request),
            7 => Ok(PeerMessageType::Piece),
            8 => Ok(PeerMessageType::Cancel),
            _ => Err(PeerError::InvalidMessageType(value)),
        }
    }
}

impl PeerMessage {
    /// A message of kind `kind` with this payload; its length counts the
    /// kind's byte and the payload, kept to 32 bits.
    pub fn new(kind: PeerMessageType, payload: &[u8]) -> (r: PeerMessage)
        ensures
            r matches PeerMessage::Message { length, kind: k, payload: p } && length as int == (
            payload@.len() + 1) % 0x1_0000_0000 && k == kind && p@ == payload@,
    {
        let low = payload.len() as u64 % 0x1_0000_0000;
        let length = ((low + 1) % 0x1_0000_0000) as u32;
        assert((low + 1) % 0x1_0000_0000 == (payload@.len() + 1) % 0x1_0000_0000) by (nonlinear_arith)
            requires
                low == payload@.len() % 0x1_0000_0000,
                payload@.len() >= 0,
        ;
        PeerMessage::Message { length, kind, payload: vstd::slice::slice_to_vec(payload) }
    }

    /// The bytes of this message on the wire (see `message_bytes`).
    pub fn as_bytes(&self) -> (r: Vec<u8>)
        ensures
            r@ == message_bytes(*self),
    {
        match self {
            PeerMessage::KeepAlive => {
                let mut v: Vec<u8> = Vec::new();
                v.push(0);
                v.push(0);
                v.push(0);
                v.push(0);
                assert(v@ =~= seq![0u8, 0u8, 0u8, 0u8]);
                v
            },
            PeerMessage::Message { length, kind, payload } => {
                let header = to_be_bytes(*length);
                let mut v: Vec<u8> = Vec::new();
                v.push(header[0]);
                v.push(header[1]);
                v.push(header[2]);
                v.push(header[3]);
                v.push(kind.code());
                let ghost start = v@;
                let mut i: usize = 0;
                while i < payload.len()
                    invariant
                        i <= payload.len(),
                        v@ == start + payload@.take(i as int),
                    decreases payload.len() - i,
                {
                    v.push(payload[i]);
                    i += 1;
                    assert(v@ =~= start + payload@.take(i as int));
                }
                assert(payload@.take(i as int) =~= payload@);
                assert(v@ =~= message_bytes(*self));
                v
            },
        }
    }

    /// The message that a frame of a non-zero `length` holds: its kind's
    /// code, then its payload.
    pub fn from_frame(length: u32, kind_code_byte: u8, payload: Vec<u8>) -> (r: Result<
        PeerMessage,
        PeerError,
    >)
        ensures
            kind_code_byte <= 8 ==> (r matches Ok(PeerMessage::Message { length: l, kind, payload: p })
                && l == length && kind_code(kind) == kind_code_byte && p@ == payload@),
            kind_code_byte > 8 ==> (r matches Err(PeerError::InvalidMessageType(v)) && v
                == kind_code_byte),
    {
        match PeerMessageType::from_code(kind_code_byte) {
            Ok(kind) => Ok(PeerMessage::Message { length, kind, payload }),
            Err(e) => Err(e),
        }
    }
}

/// A message reads back from its bytes: the first four give its length,
/// the fifth its kind, and the rest its payload.
pub proof fn lemma_message_frame(m: PeerMessage)
    requires
        m is Message,
    ensures
        ({
            let b = message_bytes(m);
            &&& b.len() == 5 + m->payload@.len()
            &&& be32_value(b.subrange(0, 4)) == m->length as int
            &&& b[4] == kind_code(m->kind)
            &&& b.skip(5) == m->payload@
        }),
{
    let b = message_bytes(m);
    let n = m->length;
    assert(b.skip(5) =~= m->payload@);
    let h = b.subrange(0, 4);
    assert(h[0] == (n / 0x100_0000) as u8);
    assert(be32_value(h) == n as int) by (nonlinear_arith)
        requires
            h[0] == (n / 0x100_0000) as u8,
            h[1] == ((n / 0x1_0000) % 0x100) as u8,
            h[2] == ((n / 0x100) % 0x100) as u8,
            h[3] == (n % 0x100) as u8,
            h.len() == 4,
    {
    }
}

/// A kind's code gives the kind back.
pub proof fn lemma_kind_code_injective(a: PeerMessageType, b: PeerMessageType)
    ensures
        kind_code(a) == kind_code(b) ==> a == b,
{
}

/// The kinds carry the protocol's fixed codes: choke 0, unchoke 1,
/// interested 2, not interested 3, have 4, bitfield 5, request 6, piece 7,
/// cancel 8.
pub proof fn lemma_kind_code_values()
    ensures
        kind_code(PeerMessageType::Choke) == 0,
        kind_code(PeerMessageType::Unchoke) == 1,
        kind_code(PeerMessageType::Interested) == 2,
        kind_code(PeerMessageType::NotInterested) == 3,
        kind_code(PeerMessageType::Have) == 4,
        kind_code(PeerMessageType::Bitfield) == 5,
        kind_code(PeerMessageType::Request) == 6,
        kind_code(PeerMessageType::Piece) == 7,
        kind_code(PeerMessageType::Cancel) == 8,
{
}

} // verus!
