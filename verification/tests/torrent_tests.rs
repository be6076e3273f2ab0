use sha1::{Digest, Sha1};
use torrent_client::error::Error;
use torrent_client::hashing::InfoHash;
use torrent_client::hashing::calculate_info_hash;
use torrent_client::torrent::parse_torrent;

fn single_file_doc() -> Vec<u8> {
    let mut doc: Vec<u8> = Vec::new();
    doc.extend_from_slice(b"d8:announce24:http://tracker.example/a");
    doc.extend_from_slice(b"7:comment5:hello");
    doc.extend_from_slice(b"4:info");
    doc.extend_from_slice(single_file_info());
    doc.extend_from_slice(b"e");
    doc
}

fn single_file_info() -> &'static [u8] {
    // length 12, piece length 4: three pieces, 60 bytes of piece hashes.
    b"d6:lengthi12e4:name4:file12:piece lengthi4e6:pieces60:\
aaaaaaaaaaaaaaaaaaaabbbbbbbbbbbbbbbbbbbbcccccccccccccccccccce"
}

#[test]
fn single_file_torrent_parses() {
    let doc = single_file_doc();
    let t = parse_torrent(&doc).expect("document should parse");
    assert_eq!(t.info.name, b"file".to_vec());
    assert_eq!(t.info.piece_length, 4);
    assert_eq!(t.info.length, Some(12));
    assert!(t.info.files.is_none());
    assert_eq!(t.info.pieces.len(), 60);
    assert_eq!(t.announce, Some(b"http://tracker.example/a".to_vec()));
    assert_eq!(t.comment, Some(b"hello".to_vec()));
    assert!(t.creation_date.is_none());
    assert_eq!(t.info_bytes, single_file_info().to_vec());
    assert_eq!(t.info.total_length(), Some(12));
}

#[test]
fn multi_file_torrent_parses() {
    let mut doc: Vec<u8> = Vec::new();
    doc.extend_from_slice(b"d4:infod5:filesl");
    doc.extend_from_slice(b"d6:lengthi5e4:pathl1:a3:subee");
    doc.extend_from_slice(b"d6:lengthi7e4:pathl1:bee");
    doc.extend_from_slice(b"e4:name3:dir12:piece lengthi16384e6:pieces20:");
    doc.extend_from_slice(&[0x11u8; 20]);
    doc.extend_from_slice(b"ee");
    let t = parse_torrent(&doc).expect("document should parse");
    let files = t.info.files.as_ref().expect("files should be present");
    assert_eq!(files.len(), 2);
    assert_eq!(files[0].length, 5);
    assert_eq!(files[0].path, vec![b"a".to_vec(), b"sub".to_vec()]);
    assert_eq!(files[1].length, 7);
    assert_eq!(files[1].path, vec![b"b".to_vec()]);
    assert!(t.info.length.is_none());
    assert!(t.announce.is_none());
    assert_eq!(t.info.total_length(), Some(12));
}

#[test]
fn piece_table_slices_by_index() {
    let doc = single_file_doc();
    let t = parse_torrent(&doc).unwrap();
    assert_eq!(t.info.num_pieces(), 3);
    assert_eq!(t.info.piece_hash(0), vec![b'a'; 20]);
    assert_eq!(t.info.piece_hash(1), vec![b'b'; 20]);
    assert_eq!(t.info.piece_hash(2), vec![b'c'; 20]);
    // 20 * ceil(12 / 4) bytes of hashes, one chunk per piece index.
    assert_eq!(t.info.pieces.len(), 20 * ((12 + 4 - 1) / 4));
}

#[test]
fn info_hash_is_stable_and_matches_raw_bytes() {
    let doc = single_file_doc();
    let t1 = parse_torrent(&doc).unwrap();
    let t2 = parse_torrent(&doc).unwrap();
    let h1 = calculate_info_hash(&t1);
    let h2 = calculate_info_hash(&t2);
    assert_eq!(h1.bytes, h2.bytes);
    assert_eq!(h1.bytes.len(), 20);
    // The hash is taken over the verbatim `info` bytes of the document.
    let direct = {
        let mut hasher = Sha1::new();
        hasher.update(single_file_info());
        hasher.finalize().to_vec()
    };
    assert_eq!(h1.bytes, direct);
    assert_eq!(h1.to_hex(), hex::encode(&direct));
}

#[test]
fn missing_info_is_reported() {
    let doc: Vec<u8> = b"d8:announce3:urle".to_vec();
    assert_eq!(parse_torrent(&doc).unwrap_err(), Error::InfoNotFound);
}

#[test]
fn malformed_info_is_rejected() {
    // `pieces` length not a multiple of 20.
    let doc: Vec<u8> =
        b"d4:infod6:lengthi1e4:name1:x12:piece lengthi1e6:pieces3:abcee".to_vec();
    assert_eq!(parse_torrent(&doc).unwrap_err(), Error::Decode);

    // Both `length` and `files` present.
    let doc2: Vec<u8> = b"d4:infod5:filesld6:lengthi1e4:pathl1:aeee6:lengthi1e4:name1:x\
12:piece lengthi1e6:pieces0:ee"
        .to_vec();
    assert_eq!(parse_torrent(&doc2).unwrap_err(), Error::Decode);

    // Neither `length` nor `files` present.
    let doc3: Vec<u8> = b"d4:infod4:name1:x12:piece lengthi1e6:pieces0:ee".to_vec();
    assert_eq!(parse_torrent(&doc3).unwrap_err(), Error::Decode);

    // Wrong type for `name`.
    let doc4: Vec<u8> =
        b"d4:infod6:lengthi1e4:namei5e12:piece lengthi1e6:pieces0:ee".to_vec();
    assert_eq!(parse_torrent(&doc4).unwrap_err(), Error::Decode);

    // A piece length that is not positive.
    let doc5: Vec<u8> =
        b"d4:infod6:lengthi1e4:name1:x12:piece lengthi0e6:pieces0:ee".to_vec();
    assert_eq!(parse_torrent(&doc5).unwrap_err(), Error::Decode);
    let doc6: Vec<u8> =
        b"d4:infod6:lengthi1e4:name1:x12:piece lengthi-3e6:pieces0:ee".to_vec();
    assert_eq!(parse_torrent(&doc6).unwrap_err(), Error::Decode);
}

#[test]
fn info_hash_renders_as_lower_case_hex() {
    let hash = InfoHash { bytes: (0u8..20).collect() };
    assert_eq!(hash.to_hex(), "000102030405060708090a0b0c0d0e0f10111213");
}

#[test]
fn total_length_refuses_overflow_and_negative_lengths() {
    let mut doc: Vec<u8> = Vec::new();
    doc.extend_from_slice(b"d4:infod5:filesl");
    doc.extend_from_slice(b"d6:lengthi9223372036854775807e4:pathl1:aee");
    doc.extend_from_slice(b"d6:lengthi1e4:pathl1:bee");
    doc.extend_from_slice(b"e4:name1:x12:piece lengthi1e6:pieces0:ee");
    let t = parse_torrent(&doc).unwrap();
    assert_eq!(t.info.total_length(), None);

    let mut doc2: Vec<u8> = Vec::new();
    doc2.extend_from_slice(b"d4:infod5:filesl");
    doc2.extend_from_slice(b"d6:lengthi-5e4:pathl1:aee");
    doc2.extend_from_slice(b"e4:name1:x12:piece lengthi1e6:pieces0:ee");
    let t2 = parse_torrent(&doc2).unwrap();
    assert_eq!(t2.info.total_length(), None);
}

#[test]
fn optional_display_fields_parse() {
    let mut doc: Vec<u8> = Vec::new();
    doc.extend_from_slice(b"d13:announce-listll4:http5:httpsel3:udpee");
    doc.extend_from_slice(b"10:created by2:me13:creation datei99e8:encoding5:UTF-8");
    doc.extend_from_slice(b"9:httpseedsl5:seed15:seed2e");
    doc.extend_from_slice(b"4:infod6:lengthi4e6:md5sum3:md54:name1:n");
    doc.extend_from_slice(b"4:pathl3:dir4:leafe12:piece lengthi4e6:pieces20:");
    doc.extend_from_slice(&[7u8; 20]);
    doc.extend_from_slice(b"7:privatei1e9:root hash2:rh");
    doc.extend_from_slice(b"e5:nodesll4:hosti6881eee");
    doc.extend_from_slice(b"e");
    let t = parse_torrent(&doc).expect("document should parse");
    assert_eq!(
        t.announce_list,
        Some(vec![vec![b"http".to_vec(), b"https".to_vec()], vec![b"udp".to_vec()]])
    );
    assert_eq!(t.created_by, Some(b"me".to_vec()));
    assert_eq!(t.creation_date, Some(99));
    assert_eq!(t.encoding, Some(b"UTF-8".to_vec()));
    assert_eq!(t.httpseeds, Some(vec![b"seed1".to_vec(), b"seed2".to_vec()]));
    assert_eq!(t.info.md5sum, Some(b"md5".to_vec()));
    assert_eq!(t.info.path, Some(vec![b"dir".to_vec(), b"leaf".to_vec()]));
    assert_eq!(t.info.private, Some(1));
    assert_eq!(t.info.root_hash, Some(b"rh".to_vec()));
    let nodes = t.nodes.expect("nodes should be present");
    assert_eq!(nodes.len(), 1);
    assert_eq!(nodes[0].0, b"host".to_vec());
    assert_eq!(nodes[0].1, 6881);
    assert!(t.announce.is_none());
}
