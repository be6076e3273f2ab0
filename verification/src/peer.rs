//! The peer-wire message layer: handshake, length-prefixed messages, and
//! the block-request loop that assembles one piece.
//!
//! Sockets live outside the library: these functions build the exact bytes
//! to send and decode the exact bytes received, and `PieceBuffer` makes
//! every decision of the download loop.

use vstd::prelude::*;

use crate::bytes::{bytes_eq, copy_bytes, copy_range, spec_be_bytes, spec_u32_be, u32_to_be};
use crate::error::Error;
use crate::hashing::InfoHash;

verus! {

/// One block request covers at most 16 KiB.
pub const BLOCK_SIZE: u32 = 16384;

/// `BitTorrent protocol`, the 19-byte protocol name of the handshake.
pub open spec fn protocol_name() -> Seq<u8> {
    seq!['B' as u8, 'i' as u8, 't' as u8, 'T' as u8, 'o' as u8, 'r' as u8, 'r' as u8, 'e' as u8,
        'n' as u8, 't' as u8, ' ' as u8, 'p' as u8, 'r' as u8, 'o' as u8, 't' as u8, 'o' as u8,
        'c' as u8, 'o' as u8, 'l' as u8]
}

/// The 68-byte handshake: the name length 19, the protocol name, eight
/// reserved zero bytes, the info hash, and the peer id.
pub open spec fn spec_handshake(hash: Seq<u8>, peer_id: Seq<u8>) -> Seq<u8> {
    seq![19u8] + protocol_name() + seq![0u8, 0u8, 0u8, 0u8, 0u8, 0u8, 0u8, 0u8] + hash + peer_id
}

/// Builds the handshake message for an info hash and a peer id.
pub fn build_handshake(hash: &InfoHash, peer_id: &Vec<u8>) -> (r: Vec<u8>)
    requires
        hash.wf(),
        peer_id@.len() == 20,
    ensures
        r@ == spec_handshake(hash.bytes@, peer_id@),
        r@.len() == 68,
{
    let mut out: Vec<u8> = Vec::new();
    out.push(19);
    let mut name: Vec<u8> = vec!['B' as u8, 'i' as u8, 't' as u8, 'T' as u8, 'o' as u8, 'r' as u8,
        'r' as u8, 'e' as u8, 'n' as u8, 't' as u8, ' ' as u8, 'p' as u8, 'r' as u8, 'o' as u8,
        't' as u8, 'o' as u8, 'c' as u8, 'o' as u8, 'l' as u8];
    assert(name@ =~= protocol_name());
    out.append(&mut name);
    let mut zeros: Vec<u8> = vec![0u8, 0u8, 0u8, 0u8, 0u8, 0u8, 0u8, 0u8];
    out.append(&mut zeros);
    let mut h = copy_bytes(&hash.bytes);
    out.append(&mut h);
    let mut pid = copy_bytes(peer_id);
    out.append(&mut pid);
    assert(out@ =~= spec_handshake(hash.bytes@, peer_id@));
    out
}

/// The fields of a peer's 68-byte handshake reply.
#[derive(Debug)]
pub struct HandshakeReply {
    pub pstrlen: u8,
    pub protocol: Vec<u8>,
    pub reserved: Vec<u8>,
    pub hash: Vec<u8>,
    pub peer_id: Vec<u8>,
}

/// Parses and verifies a handshake reply.  The reply must be exactly 68
/// bytes with name length 19; a reply that echoes a different info hash
/// fails with `HandshakeMismatch`.
pub fn parse_handshake(reply: &Vec<u8>, expected: &InfoHash) -> (r: Result<HandshakeReply, Error>)
    requires
        expected.wf(),
    ensures
        r matches Ok(h) ==> reply@.len() == 68 && h.pstrlen == 19 && reply@[0] == 19 && h.protocol@
            == reply@.subrange(1, 20) && h.reserved@ == reply@.subrange(20, 28) && h.hash@
            == reply@.subrange(28, 48) && h.hash@ == expected.bytes@ && h.peer_id@
            == reply@.subrange(48, 68),
        reply@.len() != 68 ==> (r matches Err(e) && e == Error::Protocol),
        reply@.len() == 68 && reply@[0] != 19 ==> (r matches Err(e) && e == Error::Protocol),
        reply@.len() == 68 && reply@[0] == 19 && reply@.subrange(28, 48) != expected.bytes@ ==> (
        r matches Err(e) && e == Error::HandshakeMismatch),
        reply@.len() == 68 && reply@[0] == 19 && reply@.subrange(28, 48) == expected.bytes@ ==> r
            is Ok,
{
    if reply.len() != 68 {
        return Err(Error::Protocol);
    }
    if reply[0] != 19 {
        return Err(Error::Protocol);
    }
    let hash = copy_range(reply, 28, 48);
    if !bytes_eq(&hash, &expected.bytes) {
        return Err(Error::HandshakeMismatch);
    }
    let protocol = copy_range(reply, 1, 20);
    let reserved = copy_range(reply, 20, 28);
    let peer_id = copy_range(reply, 48, 68);
    Ok(HandshakeReply { pstrlen: 19, protocol, reserved, hash, peer_id })
}

/// The fixed 5-byte `interested` message: length prefix 1, identifier 2.
pub open spec fn spec_interested() -> Seq<u8> {
    seq![0u8, 0u8, 0u8, 1u8, 2u8]
}

/// Builds the `interested` message.
pub fn build_interested() -> (r: Vec<u8>)
    ensures
        r@ == spec_interested(),
{
    let out: Vec<u8> = vec![0u8, 0u8, 0u8, 1u8, 2u8];
    assert(out@ =~= spec_interested());
    out
}

/// The fixed 5-byte `unchoke` message: length prefix 1, identifier 1.
pub open spec fn spec_unchoke() -> Seq<u8> {
    seq![0u8, 0u8, 0u8, 1u8, 1u8]
}

/// Checks a 5-byte message for `unchoke`: succeeds exactly on the unchoke
/// message, and fails with `Protocol` on anything else.
pub fn check_unchoke(msg: &Vec<u8>) -> (r: Result<(), Error>)
    ensures
        r is Ok <==> msg@ == spec_unchoke(),
        r matches Err(e) ==> e == Error::Protocol,
{
    if msg.len() == 5 && msg[0] == 0 && msg[1] == 0 && msg[2] == 0 && msg[3] == 1 && msg[4] == 1 {
        assert(msg@ =~= spec_unchoke());
        Ok(())
    } else {
        assert(msg@ != spec_unchoke());
        Err(Error::Protocol)
    }
}

/// Extracts the bitmap from a `bitfield` message body (the bytes after the
/// length prefix).  Succeeds exactly when the body carries identifier 5.
pub fn parse_bitfield(body: &Vec<u8>) -> (r: Result<Vec<u8>, Error>)
    ensures
        r matches Ok(bm) ==> body@.len() >= 1 && body@[0] == 5 && bm@ == body@.subrange(
            1,
            body@.len() as int,
        ),
        r is Err <==> !(body@.len() >= 1 && body@[0] == 5),
        r matches Err(e) ==> e == Error::Protocol,
{
    if body.len() < 1 || body[0] != 5 {
        return Err(Error::Protocol);
    }
    Ok(copy_range(body, 1, body.len()))
}

/// A `request` message: length prefix 13, identifier 6, then the piece
/// index, the offset within the piece, and the requested length, each as
/// four big-endian bytes.
pub open spec fn spec_request(index: u32, offset: u32, length: u32) -> Seq<u8> {
    seq![0u8, 0u8, 0u8, 13u8, 6u8] + spec_be_bytes(index) + spec_be_bytes(offset) + spec_be_bytes(
        length,
    )
}

/// Builds a block `request` message.
pub fn build_request(index: u32, offset: u32, length: u32) -> (r: Vec<u8>)
    ensures
        r@ == spec_request(index, offset, length),
        r@.len() == 17,
{
    let mut out: Vec<u8> = vec![0u8, 0u8, 0u8, 13u8, 6u8];
    let mut bi = u32_to_be(index);
    out.append(&mut bi);
    let mut bo = u32_to_be(offset);
    out.append(&mut bo);
    let mut bl = u32_to_be(length);
    out.append(&mut bl);
    assert(out@ =~= spec_request(index, offset, length));
    out
}

/// Decodes a `piece` message body: identifier 7, the piece index and the
/// block offset as big-endian fields, then the payload.  Succeeds exactly
/// when the body carries identifier 7 and the 9-byte header is whole.
pub fn parse_piece_message(body: &Vec<u8>) -> (r: Result<(u32, u32, Vec<u8>), Error>)
    ensures
        r matches Ok(t) ==> body@.len() >= 9 && body@[0] == 7 && t.0 == spec_u32_be(
            body@[1],
            body@[2],
            body@[3],
            body@[4],
        ) && t.1 == spec_u32_be(body@[5], body@[6], body@[7], body@[8]) && t.2@ == body@.subrange(
            9,
            body@.len() as int,
        ),
        r is Err <==> !(body@.len() >= 9 && body@[0] == 7),
        r matches Err(e) ==> e == Error::Protocol,
{
    if body.len() < 9 || body[0] != 7 {
        return Err(Error::Protocol);
    }
    let index = crate::bytes::u32_from_be(body[1], body[2], body[3], body[4]);
    let offset = crate::bytes::u32_from_be(body[5], body[6], body[7], body[8]);
    let payload = copy_range(body, 9, body.len());
    Ok((index, offset, payload))
}

/// The append-only buffer assembling one piece, and the decisions of the
/// block-request loop: which block to ask for next, and whether a received
/// block is acceptable.
#[derive(Debug)]
pub struct PieceBuffer {
    pub piece_index: u32,
    pub piece_length: u32,
    pub data: Vec<u8>,
}

impl PieceBuffer {
    /// The buffer never grows beyond the piece length.
    pub open spec fn wf(self) -> bool {
        self.data@.len() <= self.piece_length
    }

    /// The next block request owed when the piece is incomplete: the
    /// current end of the buffer, for a full block or the remainder.
    pub open spec fn spec_next_request(self) -> Option<(u32, u32, u32)> {
        if self.data@.len() < self.piece_length {
            Some(
                (
                    self.piece_index,
                    self.data@.len() as u32,
                    if self.piece_length - self.data@.len() < BLOCK_SIZE {
                        (self.piece_length - self.data@.len()) as u32
                    } else {
                        BLOCK_SIZE
                    },
                ),
            )
        } else {
            None
        }
    }

    /// An empty buffer for one piece.
    pub fn new(piece_index: u32, piece_length: u32) -> (r: Self)
        ensures
            r.piece_index == piece_index,
            r.piece_length == piece_length,
            r.data@.len() == 0,
            r.wf(),
    {
        PieceBuffer { piece_index, piece_length, data: Vec::new() }
    }

    /// Whether the piece is fully assembled.
    pub fn is_complete(&self) -> (r: bool)
        requires
            self.wf(),
        ensures
            r == (self.data@.len() == self.piece_length),
    {
        self.data.len() == self.piece_length as usize
    }

    /// The next block request, as piece index, offset and length: `None`
    /// once the piece is complete.  Offsets strictly increase, and every
    /// request is for `BLOCK_SIZE` bytes or the remainder of the piece.
    pub fn next_request(&self) -> (r: Option<(u32, u32, u32)>)
        requires
            self.wf(),
        ensures
            r == self.spec_next_request(),
            r matches Some(t) ==> t.1 == self.data@.len() && 1 <= t.2 <= BLOCK_SIZE && t.1 + t.2
                <= self.piece_length,
    {
        let filled = self.data.len();
        if filled < self.piece_length as usize {
            let remaining = self.piece_length - filled as u32;
            let length = if remaining < BLOCK_SIZE {
                remaining
            } else {
                BLOCK_SIZE
            };
            Some((self.piece_index, filled as u32, length))
        } else {
            None
        }
    }

    /// Appends a received block.  The block must start exactly at the
    /// current end of the buffer and must not overrun the piece; anything
    /// else fails with `Protocol` and leaves the buffer unchanged.
    pub fn apply_block(&mut self, offset: u32, payload: &Vec<u8>) -> (r: Result<(), Error>)
        requires
            old(self).wf(),
        ensures
            r is Ok <==> (offset == old(self).data@.len() && old(self).data@.len() + payload@.len()
                <= old(self).piece_length),
            r is Ok ==> final(self).data@ == old(self).data@ + payload@,
            r is Err ==> *final(self) == *old(self),
            r matches Err(e) ==> e == Error::Protocol,
            final(self).piece_index == old(self).piece_index,
            final(self).piece_length == old(self).piece_length,
            final(self).wf(),
    {
        if offset as usize != self.data.len() {
            return Err(Error::Protocol);
        }
        if payload.len() > (self.piece_length as usize) - self.data.len() {
            return Err(Error::Protocol);
        }
        let mut incoming = copy_bytes(payload);
        self.data.append(&mut incoming);
        Ok(())
    }
}

} // verus!

verus! {

/// The states of one peer-wire session, in protocol order.
#[derive(Clone, Copy, Debug, PartialEq, Eq, Structural)]
pub enum PeerWireState {
    Connected,
    HandshakeSent,
    HandshakeVerified,
    BitfieldReceived,
    Interested,
    Unchoked,
    Downloading,
    PieceComplete,
}

/// One peer-wire session: the protocol state, the identity exchanged in
/// the handshake, and the piece being assembled.  Each step consumes the
/// bytes read from the peer, or produces the bytes to send, and advances
/// the state; a malformed input leaves the session unchanged so the
/// caller can abort cleanly.
#[derive(Debug)]
pub struct PeerSession {
    pub state: PeerWireState,
    pub info_hash: InfoHash,
    pub peer_id: Vec<u8>,
    pub piece: PieceBuffer,
}

impl PeerSession {
    /// A session is well-formed when its identity fields have their wire
    /// sizes and the piece buffer has not overrun.
    pub open spec fn wf(self) -> bool {
        &&& self.info_hash.wf()
        &&& self.peer_id@.len() == 20
        &&& self.piece.wf()
    }

    /// A fresh session for one piece, not yet handshaken.
    pub fn new(info_hash: InfoHash, peer_id: Vec<u8>, piece_index: u32, piece_length: u32) -> (r:
        Self)
        requires
            info_hash.wf(),
            peer_id@.len() == 20,
        ensures
            r.wf(),
            r.state == PeerWireState::Connected,
            r.info_hash == info_hash,
            r.peer_id@ == peer_id@,
            r.piece.piece_index == piece_index,
            r.piece.piece_length == piece_length,
            r.piece.data@.len() == 0,
    {
        PeerSession {
            state: PeerWireState::Connected,
            info_hash,
            peer_id,
            piece: PieceBuffer::new(piece_index, piece_length),
        }
    }

    /// Produces the handshake to send and moves to `HandshakeSent`.
    pub fn start(&mut self) -> (r: Vec<u8>)
        requires
            old(self).wf(),
            old(self).state == PeerWireState::Connected,
        ensures
            final(self).wf(),
            r@ == spec_handshake(old(self).info_hash.bytes@, old(self).peer_id@),
            final(self).state == PeerWireState::HandshakeSent,
            final(self).info_hash == old(self).info_hash,
            final(self).peer_id == old(self).peer_id,
            final(self).piece == old(self).piece,
    {
        let msg = build_handshake(&self.info_hash, &self.peer_id);
        self.state = PeerWireState::HandshakeSent;
        msg
    }

    /// Consumes the 68-byte handshake reply.  A reply echoing the right
    /// info hash moves to `HandshakeVerified`; anything else fails as
    /// `parse_handshake` does and leaves the session unchanged.
    pub fn on_handshake_reply(&mut self, reply: &Vec<u8>) -> (r: Result<HandshakeReply, Error>)
        requires
            old(self).wf(),
            old(self).state == PeerWireState::HandshakeSent,
        ensures
            final(self).wf(),
            r is Ok <==> (reply@.len() == 68 && reply@[0] == 19 && reply@.subrange(28, 48)
                == old(self).info_hash.bytes@),
            r matches Ok(h) ==> h.hash@ == old(self).info_hash.bytes@ && h.peer_id@
                == reply@.subrange(48, 68) && final(self).state == PeerWireState::HandshakeVerified,
            r is Err ==> *final(self) == *old(self),
            r matches Err(e) ==> e == Error::Protocol || e == Error::HandshakeMismatch,
            final(self).info_hash == old(self).info_hash,
            final(self).peer_id == old(self).peer_id,
            final(self).piece == old(self).piece,
    {
        match parse_handshake(reply, &self.info_hash) {
            Ok(h) => {
                self.state = PeerWireState::HandshakeVerified;
                Ok(h)
            },
            Err(e) => Err(e),
        }
    }

    /// Consumes the first length-prefixed message body, which must be a
    /// bitfield, and moves to `BitfieldReceived`, returning the bitmap.
    pub fn on_bitfield(&mut self, body: &Vec<u8>) -> (r: Result<Vec<u8>, Error>)
        requires
            old(self).wf(),
            old(self).state == PeerWireState::HandshakeVerified,
        ensures
            final(self).wf(),
            r is Ok <==> (body@.len() >= 1 && body@[0] == 5),
            r matches Ok(bm) ==> bm@ == body@.subrange(1, body@.len() as int) && final(self).state
                == PeerWireState::BitfieldReceived,
            r is Err ==> *final(self) == *old(self),
            r matches Err(e) ==> e == Error::Protocol,
            final(self).info_hash == old(self).info_hash,
            final(self).peer_id == old(self).peer_id,
            final(self).piece == old(self).piece,
    {
        match parse_bitfield(body) {
            Ok(bm) => {
                self.state = PeerWireState::BitfieldReceived;
                Ok(bm)
            },
            Err(e) => Err(e),
        }
    }

    /// Produces the `interested` message and moves to `Interested`.
    pub fn interested(&mut self) -> (r: Vec<u8>)
        requires
            old(self).wf(),
            old(self).state == PeerWireState::BitfieldReceived,
        ensures
            final(self).wf(),
            r@ == spec_interested(),
            final(self).state == PeerWireState::Interested,
            final(self).info_hash == old(self).info_hash,
            final(self).peer_id == old(self).peer_id,
            final(self).piece == old(self).piece,
    {
        self.state = PeerWireState::Interested;
        build_interested()
    }

    /// Consumes the 5-byte message that must be `unchoke` and moves to
    /// `Unchoked`.
    pub fn on_unchoke(&mut self, msg: &Vec<u8>) -> (r: Result<(), Error>)
        requires
            old(self).wf(),
            old(self).state == PeerWireState::Interested,
        ensures
            final(self).wf(),
            r is Ok <==> msg@ == spec_unchoke(),
            r is Ok ==> final(self).state == PeerWireState::Unchoked,
            r is Err ==> *final(self) == *old(self),
            r matches Err(e) ==> e == Error::Protocol,
            final(self).info_hash == old(self).info_hash,
            final(self).peer_id == old(self).peer_id,
            final(self).piece == old(self).piece,
    {
        match check_unchoke(msg) {
            Ok(()) => {
                self.state = PeerWireState::Unchoked;
                Ok(())
            },
            Err(e) => Err(e),
        }
    }

    /// Produces the next block `request` message while the piece is
    /// incomplete, moving to `Downloading`; once the buffer holds the
    /// whole piece it returns `None` and moves to `PieceComplete`.
    pub fn next_block_request(&mut self) -> (r: Option<Vec<u8>>)
        requires
            old(self).wf(),
            old(self).state == PeerWireState::Unchoked || old(self).state
                == PeerWireState::Downloading,
        ensures
            final(self).wf(),
            old(self).piece.data@.len() < old(self).piece.piece_length ==> (r matches Some(msg)
                && msg@ == spec_request(
                old(self).piece.piece_index,
                old(self).piece.data@.len() as u32,
                if old(self).piece.piece_length - old(self).piece.data@.len() < BLOCK_SIZE {
                    (old(self).piece.piece_length - old(self).piece.data@.len()) as u32
                } else {
                    BLOCK_SIZE
                },
            ) && final(self).state == PeerWireState::Downloading),
            old(self).piece.data@.len() >= old(self).piece.piece_length ==> (r is None
                && final(self).state == PeerWireState::PieceComplete),
            final(self).info_hash == old(self).info_hash,
            final(self).peer_id == old(self).peer_id,
            final(self).piece == old(self).piece,
    {
        match self.piece.next_request() {
            Some((index, offset, length)) => {
                self.state = PeerWireState::Downloading;
                Some(build_request(index, offset, length))
            },
            None => {
                self.state = PeerWireState::PieceComplete;
                None
            },
        }
    }

    /// Consumes a `piece` message body and appends its payload.  The body
    /// must carry identifier 7, and its block must start exactly at the
    /// current end of the buffer and fit the piece; anything else fails
    /// and leaves the session unchanged.
    pub fn on_piece_message(&mut self, body: &Vec<u8>) -> (r: Result<(), Error>)
        requires
            old(self).wf(),
            old(self).state == PeerWireState::Downloading,
        ensures
            final(self).wf(),
            r is Ok <==> (body@.len() >= 9 && body@[0] == 7 && spec_u32_be(
                body@[5],
                body@[6],
                body@[7],
                body@[8],
            ) == old(self).piece.data@.len() && old(self).piece.data@.len() + body@.len() - 9
                <= old(self).piece.piece_length),
            r is Ok ==> final(self).piece.data@ == old(self).piece.data@ + body@.subrange(
                9,
                body@.len() as int,
            ),
            r is Err ==> *final(self) == *old(self),
            r matches Err(e) ==> e == Error::Protocol,
            final(self).state == old(self).state,
            final(self).info_hash == old(self).info_hash,
            final(self).peer_id == old(self).peer_id,
            final(self).piece.piece_index == old(self).piece.piece_index,
            final(self).piece.piece_length == old(self).piece.piece_length,
    {
        let (_, offset, payload) = match parse_piece_message(body) {
            Ok(t) => t,
            Err(e) => {
                return Err(e);
            },
        };
        match self.piece.apply_block(offset, &payload) {
            Ok(()) => Ok(()),
            Err(e) => Err(e),
        }
    }
}

} // verus!
