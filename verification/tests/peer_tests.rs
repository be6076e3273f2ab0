use torrent_client::error::Error;
use torrent_client::hashing::{verify_piece, InfoHash};
use torrent_client::peer::{
    build_handshake, build_interested, build_request, check_unchoke, parse_bitfield,
    parse_handshake, parse_piece_message, PeerSession, PeerWireState, PieceBuffer, BLOCK_SIZE,
};

fn sample_hash() -> InfoHash {
    InfoHash { bytes: (0u8..20).collect() }
}

#[test]
fn handshake_has_exact_wire_format() {
    let hash = sample_hash();
    let peer_id: Vec<u8> = vec![b'1'; 20];
    let msg = build_handshake(&hash, &peer_id);
    assert_eq!(msg.len(), 68);
    assert_eq!(msg[0], 19);
    assert_eq!(&msg[1..20], b"BitTorrent protocol");
    assert_eq!(&msg[20..28], &[0u8; 8]);
    assert_eq!(&msg[28..48], hash.bytes.as_slice());
    assert_eq!(&msg[48..68], peer_id.as_slice());
}

#[test]
fn handshake_reply_parses_when_hash_matches() {
    let hash = sample_hash();
    let reply = build_handshake(&hash, &vec![b'9'; 20]);
    let parsed = parse_handshake(&reply, &hash).expect("echoed hash matches");
    assert_eq!(parsed.pstrlen, 19);
    assert_eq!(parsed.protocol, b"BitTorrent protocol".to_vec());
    assert_eq!(parsed.reserved, vec![0u8; 8]);
    assert_eq!(parsed.hash, hash.bytes);
    assert_eq!(parsed.peer_id, vec![b'9'; 20]);
}

#[test]
fn handshake_reply_with_wrong_hash_is_a_mismatch() {
    let hash = sample_hash();
    let other = InfoHash { bytes: vec![0xaa; 20] };
    let reply = build_handshake(&other, &vec![b'9'; 20]);
    assert_eq!(parse_handshake(&reply, &hash).unwrap_err(), Error::HandshakeMismatch);
}

#[test]
fn short_or_malformed_handshake_reply_is_a_protocol_error() {
    let hash = sample_hash();
    let short: Vec<u8> = vec![19; 67];
    assert_eq!(parse_handshake(&short, &hash).unwrap_err(), Error::Protocol);
    let mut bad = build_handshake(&hash, &vec![b'9'; 20]);
    bad[0] = 18;
    assert_eq!(parse_handshake(&bad, &hash).unwrap_err(), Error::Protocol);
}

#[test]
fn interested_message_is_fixed() {
    assert_eq!(build_interested(), vec![0, 0, 0, 1, 2]);
}

#[test]
fn unchoke_is_recognized_exactly() {
    assert!(check_unchoke(&vec![0, 0, 0, 1, 1]).is_ok());
    assert_eq!(check_unchoke(&vec![0, 0, 0, 1, 0]).unwrap_err(), Error::Protocol);
    assert_eq!(check_unchoke(&vec![0, 0, 0, 1]).unwrap_err(), Error::Protocol);
}

#[test]
fn bitfield_body_yields_its_bitmap() {
    let body: Vec<u8> = vec![5, 0b1010_0000, 0x01];
    assert_eq!(parse_bitfield(&body).unwrap(), vec![0b1010_0000, 0x01]);
    let wrong_id: Vec<u8> = vec![4, 0xff];
    assert_eq!(parse_bitfield(&wrong_id).unwrap_err(), Error::Protocol);
    let empty: Vec<u8> = Vec::new();
    assert_eq!(parse_bitfield(&empty).unwrap_err(), Error::Protocol);
}

#[test]
fn request_message_has_exact_wire_format() {
    let msg = build_request(1, 16384, 16384);
    let mut expected: Vec<u8> = vec![0, 0, 0, 13, 6];
    expected.extend_from_slice(&1u32.to_be_bytes());
    expected.extend_from_slice(&16384u32.to_be_bytes());
    expected.extend_from_slice(&16384u32.to_be_bytes());
    assert_eq!(msg, expected);
}

#[test]
fn piece_message_body_decodes() {
    let mut body: Vec<u8> = vec![7];
    body.extend_from_slice(&3u32.to_be_bytes());
    body.extend_from_slice(&16384u32.to_be_bytes());
    body.extend_from_slice(&[9, 8, 7]);
    let (index, offset, payload) = parse_piece_message(&body).unwrap();
    assert_eq!(index, 3);
    assert_eq!(offset, 16384);
    assert_eq!(payload, vec![9, 8, 7]);

    let wrong_id: Vec<u8> = vec![6, 0, 0, 0, 0, 0, 0, 0, 0];
    assert_eq!(parse_piece_message(&wrong_id).unwrap_err(), Error::Protocol);
    let truncated: Vec<u8> = vec![7, 0, 0];
    assert_eq!(parse_piece_message(&truncated).unwrap_err(), Error::Protocol);
}

#[test]
fn single_block_piece_takes_exactly_one_request() {
    // piece_length 16384: one block request of the full block size, and the
    // download completes after one piece message.
    let mut buffer = PieceBuffer::new(0, 16384);
    let mut requests = 0;
    while let Some((index, offset, length)) = buffer.next_request() {
        assert_eq!(index, 0);
        assert_eq!(offset as usize, requests * 16384);
        assert_eq!(length, 16384);
        let payload: Vec<u8> = vec![0xcd; length as usize];
        buffer.apply_block(offset, &payload).unwrap();
        requests += 1;
    }
    assert_eq!(requests, 1);
    assert!(buffer.is_complete());
    assert_eq!(buffer.data.len(), 16384);
    assert!(buffer.next_request().is_none());
}

#[test]
fn multi_block_piece_takes_sixteen_full_requests() {
    // piece_length 262144 = 16 * 16384: sixteen block requests, every one of
    // them a full block, the last covering the remainder exactly.
    let mut buffer = PieceBuffer::new(2, 262144);
    let mut lengths: Vec<u32> = Vec::new();
    while let Some((index, offset, length)) = buffer.next_request() {
        assert_eq!(index, 2);
        assert_eq!(offset as usize, buffer.data.len());
        let payload: Vec<u8> = vec![0xee; length as usize];
        buffer.apply_block(offset, &payload).unwrap();
        lengths.push(length);
    }
    assert_eq!(lengths.len(), 16);
    assert!(lengths.iter().all(|&l| l == BLOCK_SIZE));
    assert!(buffer.is_complete());
}

#[test]
fn short_final_block_covers_the_remainder() {
    let mut buffer = PieceBuffer::new(0, 40000);
    let mut lengths: Vec<u32> = Vec::new();
    while let Some((_, offset, length)) = buffer.next_request() {
        let payload: Vec<u8> = vec![1; length as usize];
        buffer.apply_block(offset, &payload).unwrap();
        lengths.push(length);
    }
    assert_eq!(lengths, vec![16384, 16384, 7232]);
    assert!(buffer.is_complete());
}

#[test]
fn misplaced_or_oversized_blocks_are_rejected() {
    let mut buffer = PieceBuffer::new(0, 100);
    let payload: Vec<u8> = vec![0; 10];
    assert_eq!(buffer.apply_block(5, &payload).unwrap_err(), Error::Protocol);
    assert!(buffer.apply_block(0, &payload).is_ok());
    let too_big: Vec<u8> = vec![0; 91];
    assert_eq!(buffer.apply_block(10, &too_big).unwrap_err(), Error::Protocol);
    assert_eq!(buffer.data.len(), 10);
}

#[test]
fn piece_verification_compares_sha1_digests() {
    let piece: Vec<u8> = b"abc".to_vec();
    let expected = hex::decode("a9993e364706816aba3e25717850c26c9cd0d89d").unwrap();
    assert!(verify_piece(&piece, &expected).is_ok());
    let wrong = hex::decode("a9993e364706816aba3e25717850c26c9cd0d89e").unwrap();
    assert_eq!(verify_piece(&piece, &wrong).unwrap_err(), Error::PieceHashMismatch);
}

#[test]
fn session_walks_the_full_state_progression() {
    let hash = sample_hash();
    let peer_id: Vec<u8> = vec![b'1'; 20];
    let mut session = PeerSession::new(hash, peer_id.clone(), 0, 16384);
    assert_eq!(session.state, PeerWireState::Connected);

    let handshake = session.start();
    assert_eq!(session.state, PeerWireState::HandshakeSent);
    assert_eq!(handshake.len(), 68);

    // The peer echoes the same info hash with its own id.
    let reply = build_handshake(&sample_hash(), &vec![b'7'; 20]);
    let parsed = session.on_handshake_reply(&reply).unwrap();
    assert_eq!(session.state, PeerWireState::HandshakeVerified);
    assert_eq!(parsed.peer_id, vec![b'7'; 20]);

    let bitmap = session.on_bitfield(&vec![5, 0x80]).unwrap();
    assert_eq!(session.state, PeerWireState::BitfieldReceived);
    assert_eq!(bitmap, vec![0x80]);

    let interested = session.interested();
    assert_eq!(session.state, PeerWireState::Interested);
    assert_eq!(interested, vec![0, 0, 0, 1, 2]);

    session.on_unchoke(&vec![0, 0, 0, 1, 1]).unwrap();
    assert_eq!(session.state, PeerWireState::Unchoked);

    // A 16384-byte piece takes exactly one block request, and the session
    // ends in PieceComplete after one piece message.
    let mut requests = 0;
    while let Some(request) = session.next_block_request() {
        assert_eq!(session.state, PeerWireState::Downloading);
        assert_eq!(request, build_request(0, requests * 16384, 16384));
        let mut body: Vec<u8> = vec![7];
        body.extend_from_slice(&0u32.to_be_bytes());
        body.extend_from_slice(&(requests * 16384).to_be_bytes());
        body.extend_from_slice(&vec![0xaa; 16384]);
        session.on_piece_message(&body).unwrap();
        requests += 1;
    }
    assert_eq!(requests, 1);
    assert_eq!(session.state, PeerWireState::PieceComplete);
    assert_eq!(session.piece.data.len(), 16384);
}

#[test]
fn session_rejects_a_mismatched_handshake_and_stays_put() {
    let mut session = PeerSession::new(sample_hash(), vec![b'1'; 20], 0, 16384);
    session.start();
    let other = InfoHash { bytes: vec![0x55; 20] };
    let reply = build_handshake(&other, &vec![b'7'; 20]);
    assert_eq!(session.on_handshake_reply(&reply).unwrap_err(), Error::HandshakeMismatch);
    assert_eq!(session.state, PeerWireState::HandshakeSent);
}

#[test]
fn session_downloads_a_multi_block_piece_in_sixteen_requests() {
    let mut session = PeerSession::new(sample_hash(), vec![b'1'; 20], 3, 262144);
    session.start();
    let reply = build_handshake(&sample_hash(), &vec![b'7'; 20]);
    session.on_handshake_reply(&reply).unwrap();
    session.on_bitfield(&vec![5, 0xff]).unwrap();
    session.interested();
    session.on_unchoke(&vec![0, 0, 0, 1, 1]).unwrap();
    let mut offsets: Vec<u32> = Vec::new();
    while let Some(request) = session.next_block_request() {
        let offset = u32::from_be_bytes([request[9], request[10], request[11], request[12]]);
        let length = u32::from_be_bytes([request[13], request[14], request[15], request[16]]);
        assert_eq!(length, BLOCK_SIZE);
        offsets.push(offset);
        let mut body: Vec<u8> = vec![7];
        body.extend_from_slice(&3u32.to_be_bytes());
        body.extend_from_slice(&offset.to_be_bytes());
        body.extend_from_slice(&vec![0x42; length as usize]);
        session.on_piece_message(&body).unwrap();
    }
    assert_eq!(offsets.len(), 16);
    let expected: Vec<u32> = (0..16).map(|i| i * BLOCK_SIZE).collect();
    assert_eq!(offsets, expected);
    assert_eq!(session.state, PeerWireState::PieceComplete);
}
