//! The handshake with a peer, and the decisions of downloading a piece.
use vstd::prelude::*;

use super::value::{be32, message_bytes, to_be_bytes, PeerMessage, PeerMessageType};
use crate::digest::{sha1, sha1_digest};
use crate::torrent::value::Info;

verus! {

/// The length of the protocol name, the first byte of a handshake.
pub const PROTOCOL_LEN: u8 = 19;

/// The protocol name, `BitTorrent protocol`, in ASCII.
pub const PROTOCOL_NAME: [u8; 19] = [
    66, 105, 116, 84, 111, 114, 114, 101, 110, 116, 32, 112, 114, 111, 116, 111, 99, 111, 108,
];

/// The size of a handshake: the length byte, the name, eight reserved
/// bytes, the info hash and the peer id.
pub const HANDSHAKE_SIZE: usize = 68;

/// The bytes of a handshake.
pub open spec fn handshake_bytes(info_hash: Seq<u8>, peer_id: Seq<u8>) -> Seq<u8> {
    seq![PROTOCOL_LEN] + PROTOCOL_NAME@ + Seq::new(8, |i: int| 0u8) + info_hash + peer_id
}

/// The handshake this client sends for a torrent.
pub fn build_handshake(info_hash: &[u8; 20], peer_id: &[u8; 20]) -> (r: [u8; 68])
    ensures
        r@ == handshake_bytes(info_hash@, peer_id@),
{
    let mut msg = [0u8; 68];
    msg[0] = PROTOCOL_LEN;
    let mut i: usize = 0;
    while i < 19
        invariant
            i <= 19,
            msg@.len() == 68,
            msg@[0] == PROTOCOL_LEN,
            forall|j: int| 1 <= j < 1 + i ==> msg@[j] == PROTOCOL_NAME@[j - 1],
            forall|j: int| 20 <= j < 68 ==> msg@[j] == 0,
        decreases 19 - i,
    {
        msg[1 + i] = PROTOCOL_NAME[i];
        i += 1;
    }
    let mut i: usize = 0;
    while i < 20
        invariant
            i <= 20,
            msg@.len() == 68,
            msg@[0] == PROTOCOL_LEN,
            forall|j: int| 1 <= j < 20 ==> msg@[j] == PROTOCOL_NAME@[j - 1],
            forall|j: int| 20 <= j < 28 ==> msg@[j] == 0,
            forall|j: int| 28 <= j < 28 + i ==> msg@[j] == info_hash@[j - 28],
            forall|j: int| 48 <= j < 68 ==> msg@[j] == 0,
        decreases 20 - i,
    {
        msg[28 + i] = info_hash[i];
        i += 1;
    }
    let mut i: usize = 0;
    while i < 20
        invariant
            i <= 20,
            msg@.len() == 68,
            msg@[0] == PROTOCOL_LEN,
            forall|j: int| 1 <= j < 20 ==> msg@[j] == PROTOCOL_NAME@[j - 1],
            forall|j: int| 20 <= j < 28 ==> msg@[j] == 0,
            forall|j: int| 28 <= j < 48 ==> msg@[j] == info_hash@[j - 28],
            forall|j: int| 48 <= j < 48 + i ==> msg@[j] == peer_id@[j - 48],
        decreases 20 - i,
    {
        msg[48 + i] = peer_id[i];
        i += 1;
    }
    assert(msg@ =~= handshake_bytes(info_hash@, peer_id@));
    msg
}

/// The peer id in a handshake: its last twenty bytes.
pub fn handshake_peer_id(response: &[u8; 68]) -> (r: [u8; 20])
    ensures
        r@ == response@.subrange(48, 68),
{
    let mut id = [0u8; 20];
    let mut i: usize = 0;
    while i < 20
        invariant
            i <= 20,
            response@.len() == 68,
            forall|j: int| 0 <= j < i ==> id@[j] == response@[48 + j],
        decreases 20 - i,
    {
        id[i] = response[48 + i];
        i += 1;
    }
    assert(id@ =~= response@.subrange(48, 68));
    id
}

/// The peer id read from a handshake is the one that was put in it.
pub proof fn lemma_handshake_peer_id(info_hash: Seq<u8>, peer_id: Seq<u8>)
    requires
        info_hash.len() == 20,
        peer_id.len() == 20,
    ensures
        handshake_bytes(info_hash, peer_id).len() == HANDSHAKE_SIZE,
        handshake_bytes(info_hash, peer_id).subrange(48, 68) == peer_id,
        handshake_bytes(info_hash, peer_id).subrange(28, 48) == info_hash,
{
    let b = handshake_bytes(info_hash, peer_id);
    assert(b.subrange(48, 68) =~= peer_id);
    assert(b.subrange(28, 48) =~= info_hash);
}

/// The size of the blocks a piece is requested in: 16 KiB.
pub const BLOCK_SIZE: u32 = 16384;

/// The size of piece `index`: a whole piece length, or what is left of the
/// file for the last piece.
pub open spec fn spec_piece_size(length: int, piece_length: int, index: int) -> int {
    if piece_length <= length - piece_length * index {
        piece_length
    } else {
        length - piece_length * index
    }
}

/// The number of blocks in a piece of `size` bytes.
pub open spec fn spec_num_blocks(size: int) -> int {
    if size % (BLOCK_SIZE as int) == 0 {
        size / (BLOCK_SIZE as int)
    } else {
        size / (BLOCK_SIZE as int) + 1
    }
}

/// The size of piece `piece_index`, kept to 32 bits. The piece must start
/// within the file.
pub fn piece_size(info: &Info, piece_index: u32) -> (r: u32)
    requires
        info.piece_length * piece_index <= info.length,
    ensures
        r as int == spec_piece_size(info.length as int, info.piece_length as int, piece_index as int)
            % 0x1_0000_0000,
{
    let start = info.piece_length * (piece_index as usize);
    let left = info.length - start;
    let size = if info.piece_length <= left {
        info.piece_length
    } else {
        left
    };
    (size as u64 % 0x1_0000_0000) as u32
}

/// The number of blocks in a piece of `size` bytes.
pub fn num_blocks(size: u32) -> (r: u32)
    ensures
        r as int == spec_num_blocks(size as int),
{
    if size % BLOCK_SIZE == 0 {
        size / BLOCK_SIZE
    } else {
        size / BLOCK_SIZE + 1
    }
}

/// Where block `block` starts in its piece.
pub open spec fn block_begin(block: int) -> int {
    BLOCK_SIZE * block
}

/// The length of block `block` of a piece of `size` bytes: a whole block,
/// or what is left of the piece.
pub open spec fn block_length(size: int, block: int) -> int {
    if size - block_begin(block) <= BLOCK_SIZE {
        size - block_begin(block)
    } else {
        BLOCK_SIZE as int
    }
}

/// The blocks of a piece follow one another without gap or overlap, each
/// at most a block long and not empty, and the last ends where the piece
/// ends.
pub proof fn lemma_blocks_tile_piece(size: int, block: int)
    requires
        0 <= size,
        0 <= block < spec_num_blocks(size),
    ensures
        0 < block_length(size, block) <= BLOCK_SIZE,
        block + 1 < spec_num_blocks(size) ==> block_begin(block) + block_length(size, block)
            == block_begin(block + 1),
        block + 1 == spec_num_blocks(size) ==> block_begin(block) + block_length(size, block)
            == size,
{
    assert(block_begin(block) < size) by (nonlinear_arith)
        requires
            0 <= block < spec_num_blocks(size),
            BLOCK_SIZE == 16384,
            0 <= size,
    ;
    if block + 1 < spec_num_blocks(size) {
        assert(block_begin(block + 1) <= size) by (nonlinear_arith)
            requires
                0 <= block,
                block + 1 < spec_num_blocks(size),
                BLOCK_SIZE == 16384,
                0 <= size,
        ;
    } else {
        assert(size - block_begin(block) <= BLOCK_SIZE) by (nonlinear_arith)
            requires
                0 <= block,
                block + 1 == spec_num_blocks(size),
                BLOCK_SIZE == 16384,
                0 <= size,
        ;
    }
}

/// The payload of a request: piece index, begin and length, each as four
/// bytes, most significant first.
pub open spec fn request_payload(piece_index: u32, begin: u32, length: u32) -> Seq<u8> {
    be32(piece_index) + be32(begin) + be32(length)
}

/// `m` is the request for block `block` of piece `piece_index`, which has
/// `size` bytes.
pub open spec fn is_block_request(m: PeerMessage, piece_index: u32, size: u32, block: int) -> bool {
    &&& m matches PeerMessage::Message { length, kind, payload }
    &&& kind == PeerMessageType::Request
    &&& length == 13
    &&& payload@ == request_payload(
        piece_index,
        block_begin(block) as u32,
        block_length(size as int, block) as u32,
    )
}

/// The request for block `block` of piece `piece_index`.
pub fn block_request(piece_index: u32, size: u32, block: u32) -> (r: PeerMessage)
    requires
        (block as int) < spec_num_blocks(size as int),
    ensures
        is_block_request(r, piece_index, size, block as int),
{
    assert(BLOCK_SIZE * block < size) by (nonlinear_arith)
        requires
            (block as int) < spec_num_blocks(size as int),
            BLOCK_SIZE == 16384,
    ;
    let begin = BLOCK_SIZE * block;
    let rest = size - begin;
    let length = if rest <= BLOCK_SIZE {
        rest
    } else {
        BLOCK_SIZE
    };
    let a = to_be_bytes(piece_index);
    let b = to_be_bytes(begin);
    let c = to_be_bytes(length);
    let mut payload: Vec<u8> = Vec::new();
    let mut i: usize = 0;
    while i < 4
        invariant
            i <= 4,
            payload@ == a@.take(i as int),
        decreases 4 - i,
    {
        payload.push(a[i]);
        i += 1;
        assert(payload@ =~= a@.take(i as int));
    }
    let mut i: usize = 0;
    while i < 4
        invariant
            i <= 4,
            payload@ == a@ + b@.take(i as int),
        decreases 4 - i,
    {
        payload.push(b[i]);
        i += 1;
        assert(payload@ =~= a@ + b@.take(i as int));
    }
    let mut i: usize = 0;
    while i < 4
        invariant
            i <= 4,
            payload@ == a@ + b@ + c@.take(i as int),
        decreases 4 - i,
    {
        payload.push(c[i]);
        i += 1;
        assert(payload@ =~= a@ + b@ + c@.take(i as int));
    }
    assert(a@.take(4) =~= a@);
    assert(b@.take(4) =~= b@);
    assert(c@.take(4) =~= c@);
    PeerMessage::new(PeerMessageType::Request, payload.as_slice())
}

/// The block a piece message carries: its payload after the piece index and
/// the begin offset.
pub open spec fn block_data(payload: Seq<u8>) -> Seq<u8> {
    if payload.len() >= 8 {
        payload.skip(8)
    } else {
        Seq::empty()
    }
}

/// Whether `piece` is piece `index` of the torrent: its SHA-1 is the hash
/// the metainfo lists for that piece.
pub fn verify_piece(info: &Info, piece: &[u8], index: usize) -> (r: bool)
    ensures
        r == (index < info.pieces@.len() && sha1(piece@) == info.pieces@[index as int]@),
{
    if index >= info.pieces.len() {
        return false;
    }
    let digest = sha1_digest(piece);
    let expected = &info.pieces[index];
    let mut i: usize = 0;
    while i < 20
        invariant
            i <= 20,
            index < info.pieces@.len(),
            digest@ == sha1(piece@),
            *expected == info.pieces@[index as int],
            forall|j: int| 0 <= j < i ==> digest@[j] == expected@[j],
        decreases 20 - i,
    {
        if digest[i] != expected[i] {
            return false;
        }
        i += 1;
    }
    assert(digest@ =~= expected@);
    true
}

/// The peer that piece `piece_index` is asked of: the peer of the same
/// number, or the last peer for the pieces beyond.
pub fn peer_for_piece(piece_index: usize, num_peers: usize) -> (r: usize)
    requires
        num_peers > 0,
    ensures
        r == if piece_index < num_peers - 1 {
            piece_index
        } else {
            (num_peers - 1) as usize
        },
{
    if piece_index < num_peers - 1 {
        piece_index
    } else {
        num_peers - 1
    }
}

/// The file made of its downloaded pieces: the bytes of each piece, one
/// piece after the other, in the order of the pieces.
pub fn assemble_file(pieces: &Vec<Vec<u8>>) -> (r: Vec<u8>)
    ensures
        r@ == pieces@.map_values(|p: Vec<u8>| p@).flatten(),
{
    let ghost parts = pieces@.map_values(|p: Vec<u8>| p@);
    let mut file: Vec<u8> = Vec::new();
    let mut i: usize = 0;
    assert(parts.take(0) =~= Seq::<Seq<u8>>::empty());
    while i < pieces.len()
        invariant
            i <= pieces.len(),
            parts == pieces@.map_values(|p: Vec<u8>| p@),
            file@ == parts.take(i as int).flatten(),
        decreases pieces.len() - i,
    {
        let piece = &pieces[i];
        let mut j: usize = 0;
        let ghost before = file@;
        while j < piece.len()
            invariant
                j <= piece.len(),
                file@ == before + piece@.take(j as int),
            decreases piece.len() - j,
        {
            file.push(piece[j]);
            j += 1;
            assert(file@ =~= before + piece@.take(j as int));
        }
        proof {
            assert(piece@.take(j as int) =~= piece@);
            assert(parts[i as int] == piece@);
            assert(parts.take(i + 1) =~= parts.take(i as int).push(piece@));
            parts.take(i as int).lemma_flatten_push(piece@);
        }
        i += 1;
    }
    assert(parts.take(i as int) =~= parts);
    file
}

/// Where the download of one piece stands: whether the peer has unchoked
/// us, how many of the piece's blocks have come in, and their bytes.
pub struct PieceDownload {
    pub piece_index: u32,
    pub size: u32,
    pub blocks: u32,
    pub next_block: u32,
    pub unchoked: bool,
    pub data: Vec<u8>,
}

/// What the download of a piece asks for next: a message sent (and then the
/// peer's next message), the peer's next message, or the end, with the
/// piece found whole or corrupt.
pub enum DownloadStep {
    Send(PeerMessage),
    Receive,
    Complete,
    Corrupt,
}

/// A have message names its piece in four bytes, which are read while the
/// download waits for the unchoke.
pub open spec fn have_readable(msg: PeerMessage) -> bool {
    match msg {
        PeerMessage::Message { kind: PeerMessageType::Have, payload, .. } => payload@.len() == 4,
        _ => true,
    }
}

/// `msg` is the peer's unchoke.
pub open spec fn is_unchoke(msg: PeerMessage) -> bool {
    msg matches PeerMessage::Message { kind, .. } && kind == PeerMessageType::Unchoke
}

/// Taking in the message `msg` moves the download from `before` to `after`
/// and asks for `step`. Before the peer unchokes us, an unchoke makes the
/// step the one that the blocks so far call for, and any other message is
/// passed over. After it, a piece message adds its block while blocks are
/// due, and any other message is passed over; once all blocks are in, the
/// step is the verdict on the piece. The piece, its size and its block count
/// stay as they were.
pub open spec fn takes_in(
    before: PieceDownload,
    info: Info,
    msg: PeerMessage,
    after: PieceDownload,
    step: DownloadStep,
) -> bool {
    &&& after.wf()
    &&& after.piece_index == before.piece_index
    &&& after.size == before.size
    &&& after.blocks == before.blocks
    &&& !before.unchoked ==> if is_unchoke(msg) {
        &&& after.unchoked
        &&& after.next_block == 0
        &&& after.data@ == before.data@
        &&& after.next_step(&info, step)
    } else {
        &&& !after.unchoked
        &&& after.next_block == before.next_block
        &&& after.data@ == before.data@
        &&& step is Receive
    }
    &&& before.unchoked && before.next_block < before.blocks ==> if msg matches PeerMessage::Message {
        kind,
        ..
    } && kind == PeerMessageType::Piece {
        &&& after.unchoked
        &&& after.next_block == before.next_block + 1
        &&& after.data@ == before.data@ + block_data(msg->payload@)
        &&& after.next_step(&info, step)
    } else {
        &&& after.unchoked
        &&& after.next_block == before.next_block
        &&& after.data@ == before.data@
        &&& step is Receive
    }
    &&& before.unchoked && before.next_block == before.blocks ==> {
        &&& after.unchoked
        &&& after.next_block == before.next_block
        &&& after.data@ == before.data@
        &&& after.next_step(&info, step)
    }
}

impl PieceDownload {
    /// The block count fits the size, no block comes in before the peer
    /// unchokes us, and no more blocks than there are.
    pub open spec fn wf(&self) -> bool {
        &&& self.blocks as int == spec_num_blocks(self.size as int)
        &&& self.next_block <= self.blocks
        &&& !self.unchoked ==> self.next_block == 0 && self.data@.len() == 0
    }

    /// The step once the blocks so far are in: the request for the next
    /// block, or, when all are in, the verdict on the piece's hash.
    pub open spec fn next_step(&self, info: &Info, step: DownloadStep) -> bool {
        if self.next_block < self.blocks {
            step matches DownloadStep::Send(m) && is_block_request(
                m,
                self.piece_index,
                self.size,
                self.next_block as int,
            )
        } else if self.piece_index < info.pieces@.len() && sha1(self.data@)
            == info.pieces@[self.piece_index as int]@ {
            step is Complete
        } else {
            step is Corrupt
        }
    }

    /// Starts the download of piece `piece_index`, which must start within
    /// the file: the first step tells the peer we are interested.
    pub fn start(info: &Info, piece_index: u32) -> (r: (PieceDownload, DownloadStep))
        requires
            info.piece_length * piece_index <= info.length,
        ensures
            r.0.wf(),
            r.0.piece_index == piece_index,
            r.0.size as int == spec_piece_size(
                info.length as int,
                info.piece_length as int,
                piece_index as int,
            ) % 0x1_0000_0000,
            !r.0.unchoked,
            r.1 matches DownloadStep::Send(PeerMessage::Message { length, kind, payload })
                && length == 1 && kind == PeerMessageType::Interested && payload@.len() == 0,
            r.1 matches DownloadStep::Send(m) && message_bytes(m) == seq![0u8, 0u8, 0u8, 1u8, 2u8],
    {
        let size = piece_size(info, piece_index);
        let download = PieceDownload {
            piece_index,
            size,
            blocks: num_blocks(size),
            next_block: 0,
            unchoked: false,
            data: Vec::new(),
        };
        let empty: Vec<u8> = Vec::new();
        let interested = PeerMessage::new(PeerMessageType::Interested, empty.as_slice());
        assert(message_bytes(interested) =~= seq![0u8, 0u8, 0u8, 1u8, 2u8]);
        (download, DownloadStep::Send(interested))
    }

    /// The step once the blocks so far are in (see `next_step`).
    fn advance(&self, info: &Info) -> (step: DownloadStep)
        requires
            self.wf(),
            self.unchoked,
        ensures
            self.next_step(info, step),
    {
        if self.next_block < self.blocks {
            DownloadStep::Send(block_request(self.piece_index, self.size, self.next_block))
        } else if verify_piece(info, self.data.as_slice(), self.piece_index as usize) {
            DownloadStep::Complete
        } else {
            DownloadStep::Corrupt
        }
    }

    /// Takes in the peer's next message. Before the peer unchokes us, only
    /// an unchoke counts; after it, only a piece message, whose block is
    /// added; every other message is passed over (see `takes_in`). A have
    /// message that comes before the unchoke must name its piece in four
    /// bytes.
    pub fn on_message(&mut self, info: &Info, msg: PeerMessage) -> (step: DownloadStep)
        requires
            old(self).wf(),
            old(self).unchoked || have_readable(msg),
        ensures
            takes_in(*old(self), *info, msg, *final(self), step),
    {
        if !self.unchoked {
            if let PeerMessage::Message { kind: PeerMessageType::Unchoke, .. } = msg {
                self.unchoked = true;
                return self.advance(info);
            }
            return DownloadStep::Receive;
        }
        if self.next_block == self.blocks {
            return self.advance(info);
        }
        match msg {
            PeerMessage::Message { kind: PeerMessageType::Piece, payload, .. } => {
                let ghost before = self.data@;
                if payload.len() >= 8 {
                    let mut i: usize = 8;
                    while i < payload.len()
                        invariant
                            8 <= i <= payload.len(),
                            self.data@ == before + payload@.subrange(8, i as int),
                            before == old(self).data@,
                            old(self).wf(),
                            old(self).unchoked,
                            old(self).next_block < old(self).blocks,
                            self.piece_index == old(self).piece_index,
                            self.size == old(self).size,
                            self.blocks == old(self).blocks,
                            self.next_block == old(self).next_block,
                            self.unchoked,
                        decreases payload.len() - i,
                    {
                        self.data.push(payload[i]);
                        i += 1;
                        assert(self.data@ =~= before + payload@.subrange(8, i as int));
                    }
                    assert(payload@.subrange(8, payload@.len() as int) =~= payload@.skip(8));
                } else {
                    assert(before + Seq::<u8>::empty() =~= before);
                }
                self.next_block = self.next_block + 1;
                self.advance(info)
            },
            _ => DownloadStep::Receive,
        }
    }
}

/// The download of piece `states[0]` stands where it started, waiting, at
/// every state before `j`'s message, as long as no message before it is an
/// unchoke.
proof fn lemma_still_waiting(
    info: Info,
    states: Seq<PieceDownload>,
    msgs: Seq<PeerMessage>,
    steps: Seq<DownloadStep>,
    j: int,
)
    requires
        states.len() == msgs.len() + 1,
        steps.len() == msgs.len(),
        states[0].wf(),
        !states[0].unchoked,
        forall|i: int|
            0 <= i < msgs.len() ==> takes_in(
                #[trigger] states[i],
                info,
                msgs[i],
                states[i + 1],
                steps[i],
            ),
        0 <= j <= msgs.len(),
        forall|i: int| 0 <= i < j ==> !is_unchoke(#[trigger] msgs[i]),
    ensures
        states[j].wf(),
        !states[j].unchoked,
        states[j].next_block == 0,
        states[j].data@.len() == 0,
        states[j].piece_index == states[0].piece_index,
        states[j].size == states[0].size,
        states[j].blocks == states[0].blocks,
        forall|i: int| 0 <= i < j ==> #[trigger] steps[i] is Receive,
    decreases j,
{
    if j > 0 {
        lemma_still_waiting(info, states, msgs, steps, j - 1);
        assert(takes_in(states[j - 1], info, msgs[j - 1], states[j], steps[j - 1]));
        assert(!is_unchoke(msgs[j - 1]));
    }
}

/// Until the peer unchokes us, the download of a piece asks nothing more of
/// it after the Interested that `start` sends: every message that comes in
/// before the unchoke (a bitfield, a have, a keep-alive or any other) is
/// passed over, the step after it is to wait for the next message, and the
/// download stays where it started. The unchoke is answered with the request
/// for the piece's first block.
pub proof fn lemma_no_request_before_unchoke(
    info: Info,
    states: Seq<PieceDownload>,
    msgs: Seq<PeerMessage>,
    steps: Seq<DownloadStep>,
)
    requires
        states.len() == msgs.len() + 1,
        steps.len() == msgs.len(),
        states[0].wf(),
        !states[0].unchoked,
        forall|i: int|
            0 <= i < msgs.len() ==> takes_in(
                #[trigger] states[i],
                info,
                msgs[i],
                states[i + 1],
                steps[i],
            ),
        forall|i: int| 0 <= i < msgs.len() - 1 ==> !is_unchoke(#[trigger] msgs[i]),
    ensures
        forall|i: int| 0 <= i < msgs.len() - 1 ==> #[trigger] steps[i] is Receive,
        forall|i: int| 0 <= i < msgs.len() ==> !(#[trigger] states[i]).unchoked,
        msgs.len() > 0 && !is_unchoke(msgs.last()) ==> steps.last() is Receive,
        msgs.len() > 0 && is_unchoke(msgs.last()) && states[0].blocks > 0 ==> (steps.last() matches DownloadStep::Send(m)
            && is_block_request(m, states[0].piece_index, states[0].size, 0)),
{
    if msgs.len() > 0 {
        let n = msgs.len() - 1;
        lemma_still_waiting(info, states, msgs, steps, n);
        assert forall|i: int| 0 <= i < msgs.len() implies !(#[trigger] states[i]).unchoked by {
            lemma_still_waiting(info, states, msgs, steps, i);
        }
        assert(takes_in(states[n], info, msgs[n], states[n + 1], steps[n]));
    }
}

/// `msg` is a piece message.
pub open spec fn is_piece(msg: PeerMessage) -> bool {
    msg matches PeerMessage::Message { kind, .. } && kind == PeerMessageType::Piece
}

/// The blocks that piece messages carry, one after the other.
pub open spec fn carried_blocks(msgs: Seq<PeerMessage>) -> Seq<u8>
    decreases msgs.len(),
{
    if msgs.len() == 0 {
        Seq::empty()
    } else {
        carried_blocks(msgs.drop_last()) + block_data(msgs.last()->payload@)
    }
}

/// Where a download stands after the unchoke `msgs[0]` and the piece
/// messages `msgs[1..j]`.
proof fn lemma_fetching(
    info: Info,
    states: Seq<PieceDownload>,
    msgs: Seq<PeerMessage>,
    steps: Seq<DownloadStep>,
    j: int,
)
    requires
        states.len() == msgs.len() + 1,
        steps.len() == msgs.len(),
        states[0].wf(),
        !states[0].unchoked,
        forall|i: int|
            0 <= i < msgs.len() ==> takes_in(
                #[trigger] states[i],
                info,
                msgs[i],
                states[i + 1],
                steps[i],
            ),
        msgs.len() <= states[0].blocks + 1,
        msgs.len() > 0,
        is_unchoke(msgs[0]),
        forall|i: int| 1 <= i < msgs.len() ==> is_piece(#[trigger] msgs[i]),
        1 <= j <= msgs.len(),
    ensures
        states[j].wf(),
        states[j].unchoked,
        states[j].next_block == j - 1,
        states[j].data@ == carried_blocks(msgs.subrange(1, j)),
        states[j].piece_index == states[0].piece_index,
        states[j].size == states[0].size,
        states[j].blocks == states[0].blocks,
        states[j].next_step(&info, steps[j - 1]),
    decreases j,
{
    assert(takes_in(states[j - 1], info, msgs[j - 1], states[j], steps[j - 1]));
    if j == 1 {
        assert(msgs.subrange(1, 1) =~= Seq::<PeerMessage>::empty());
        assert(states[1].data@ =~= Seq::<u8>::empty());
    } else {
        lemma_fetching(info, states, msgs, steps, j - 1);
        assert(is_piece(msgs[j - 1]));
        let sub = msgs.subrange(1, j);
        assert(sub.drop_last() =~= msgs.subrange(1, j - 1));
        assert(sub.last() == msgs[j - 1]);
    }
}

/// Once the peer unchokes us and answers each request with a piece message,
/// the download of a piece sends one request for each of its blocks, in
/// order, and no more: as many as `spec_num_blocks` counts, covering the
/// piece from its first byte to its last without gap or overlap. Its bytes
/// are then the blocks those messages carried, in order, and its last step
/// is the verdict on their hash.
pub proof fn lemma_requests_cover_piece(
    info: Info,
    states: Seq<PieceDownload>,
    msgs: Seq<PeerMessage>,
    steps: Seq<DownloadStep>,
)
    requires
        states.len() == msgs.len() + 1,
        steps.len() == msgs.len(),
        states[0].wf(),
        !states[0].unchoked,
        forall|i: int|
            0 <= i < msgs.len() ==> takes_in(
                #[trigger] states[i],
                info,
                msgs[i],
                states[i + 1],
                steps[i],
            ),
        msgs.len() == states[0].blocks + 1,
        is_unchoke(msgs[0]),
        forall|i: int| 1 <= i < msgs.len() ==> is_piece(#[trigger] msgs[i]),
    ensures
        states[0].blocks as int == spec_num_blocks(states[0].size as int),
        forall|k: int|
            0 <= k < states[0].blocks ==> (#[trigger] steps[k] matches DownloadStep::Send(m)
                && is_block_request(m, states[0].piece_index, states[0].size, k)),
        block_begin(0) == 0,
        forall|k: int|
            0 <= k < states[0].blocks ==> 0 < #[trigger] block_length(states[0].size as int, k)
                <= BLOCK_SIZE && block_begin(k) + block_length(states[0].size as int, k) == if k
                + 1 < states[0].blocks {
                block_begin(k + 1)
            } else {
                states[0].size as int
            },
        states[msgs.len() as int].data@ == carried_blocks(msgs.drop_first()),
        if states[0].piece_index < info.pieces@.len() && sha1(carried_blocks(msgs.drop_first()))
            == info.pieces@[states[0].piece_index as int]@ {
            steps.last() is Complete
        } else {
            steps.last() is Corrupt
        },
{
    let n = states[0].blocks as int;
    assert forall|k: int| 0 <= k < n implies (#[trigger] steps[k] matches DownloadStep::Send(m)
        && is_block_request(m, states[0].piece_index, states[0].size, k)) by {
        lemma_fetching(info, states, msgs, steps, k + 1);
    }
    assert forall|k: int| 0 <= k < n implies 0 < #[trigger] block_length(states[0].size as int, k)
        <= BLOCK_SIZE && block_begin(k) + block_length(states[0].size as int, k) == if k + 1 < n {
        block_begin(k + 1)
    } else {
        states[0].size as int
    } by {
        lemma_blocks_tile_piece(states[0].size as int, k);
    }
    lemma_fetching(info, states, msgs, steps, msgs.len() as int);
    assert(msgs.subrange(1, msgs.len() as int) =~= msgs.drop_first());
}

} // verus!
