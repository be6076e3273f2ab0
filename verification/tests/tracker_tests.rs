use torrent_client::error::Error;
use torrent_client::hashing::InfoHash;
use torrent_client::tracker::{
    announce_url, build_tracker_url, decode_tracker_response, parse_peers, PeerAddress,
};
use torrent_client::torrent::parse_torrent;

#[test]
fn tracker_url_carries_all_parameters() {
    let hash = InfoHash { bytes: vec![0u8; 20] };
    let announce: Vec<u8> = b"http://t".to_vec();
    let peer_id: Vec<u8> = vec![b'1'; 20];
    let url = build_tracker_url(&announce, &hash, &peer_id, 6881, 92063);
    let mut expected: Vec<u8> = Vec::new();
    expected.extend_from_slice(b"http://t?info_hash=");
    for _ in 0..20 {
        expected.extend_from_slice(b"%00");
    }
    expected.extend_from_slice(b"&peer_id=11111111111111111111&port=6881");
    expected.extend_from_slice(b"&uploaded=0&downloaded=0&left=92063&compact=1");
    assert_eq!(url, expected);
}

#[test]
fn tracker_url_percent_encodes_unsafe_bytes_only() {
    let hash = InfoHash {
        bytes: vec![
            0xab, b'a', b'Z', b'0', b'~', b'.', b'-', b'_', 0xff, b' ', 1, 2, 3, 4, 5, 6, 7, 8, 9,
            10,
        ],
    };
    let announce: Vec<u8> = b"u".to_vec();
    let peer_id: Vec<u8> = vec![b'2'; 20];
    let url = build_tracker_url(&announce, &hash, &peer_id, 1, 0);
    let s = String::from_utf8(url).unwrap();
    let enc = "%ABaZ0~.-_%FF%20%01%02%03%04%05%06%07%08%09%0A";
    assert_eq!(
        s,
        format!(
            "u?info_hash={enc}&peer_id=22222222222222222222&port=1\
&uploaded=0&downloaded=0&left=0&compact=1"
        )
    );
}

#[test]
fn missing_announce_is_reported() {
    let doc: Vec<u8> =
        b"d4:infod6:lengthi1e4:name1:x12:piece lengthi1e6:pieces0:ee".to_vec();
    let t = parse_torrent(&doc).unwrap();
    assert_eq!(announce_url(&t).unwrap_err(), Error::MissingTracker);
}

#[test]
fn tracker_response_decodes() {
    let mut body: Vec<u8> = Vec::new();
    body.extend_from_slice(b"d8:intervali1800e5:peers12:");
    body.extend_from_slice(&[10, 0, 0, 1, 0x1a, 0xe1, 192, 168, 1, 2, 0, 80]);
    body.extend_from_slice(b"e");
    let resp = decode_tracker_response(&body).expect("response should decode");
    assert_eq!(resp.interval, Some(1800));
    assert_eq!(resp.min_interval, None);
    assert_eq!(resp.complete, None);
    assert_eq!(resp.incomplete, None);
    assert_eq!(resp.peers.len(), 12);

    let peers = parse_peers(&resp.peers).unwrap();
    assert_eq!(peers.len(), 2);
    assert_eq!(peers[0], PeerAddress { o1: 10, o2: 0, o3: 0, o4: 1, port: 6881 });
    assert_eq!(peers[1], PeerAddress { o1: 192, o2: 168, o3: 1, o4: 2, port: 80 });
    assert_eq!(peers[0].render(), b"10.0.0.1:6881".to_vec());
    assert_eq!(peers[1].render(), b"192.168.1.2:80".to_vec());
}

#[test]
fn ragged_peer_list_fails_with_tracker_protocol() {
    // A `peers` blob whose length is not a multiple of six.
    let mut body: Vec<u8> = Vec::new();
    body.extend_from_slice(b"d5:peers7:");
    body.extend_from_slice(&[1, 2, 3, 4, 5, 6, 7]);
    body.extend_from_slice(b"e");
    assert_eq!(decode_tracker_response(&body).unwrap_err(), Error::TrackerProtocol);

    let ragged: Vec<u8> = vec![1, 2, 3, 4, 5];
    assert_eq!(parse_peers(&ragged).unwrap_err(), Error::TrackerProtocol);
}

#[test]
fn malformed_tracker_bodies_fail_with_tracker_protocol() {
    let not_bencode: Vec<u8> = b"hello".to_vec();
    assert_eq!(decode_tracker_response(&not_bencode).unwrap_err(), Error::TrackerProtocol);

    let not_a_dict: Vec<u8> = b"i5e".to_vec();
    assert_eq!(decode_tracker_response(&not_a_dict).unwrap_err(), Error::TrackerProtocol);

    let no_peers: Vec<u8> = b"d8:intervali60ee".to_vec();
    assert_eq!(decode_tracker_response(&no_peers).unwrap_err(), Error::TrackerProtocol);

    let peers_not_bytes: Vec<u8> = b"d5:peersi5ee".to_vec();
    assert_eq!(decode_tracker_response(&peers_not_bytes).unwrap_err(), Error::TrackerProtocol);
}

#[test]
fn empty_peer_list_decodes_to_no_peers() {
    let peers: Vec<u8> = Vec::new();
    assert_eq!(parse_peers(&peers).unwrap().len(), 0);
}
