use torrent_client::bencode::{decode, encode_value, Bvalue};
use torrent_client::error::Error;

fn round_trips(input: &[u8]) {
    let buf: Vec<u8> = input.to_vec();
    let value = decode(&buf).expect("input should decode");
    let re = encode_value(&value);
    assert_eq!(re, buf);
}

#[test]
fn round_trip_integers() {
    round_trips(b"i0e");
    round_trips(b"i7e");
    round_trips(b"i-42e");
    round_trips(b"i9223372036854775807e");
    round_trips(b"i-9223372036854775808e");
}

#[test]
fn round_trip_byte_strings() {
    round_trips(b"0:");
    round_trips(b"3:abc");
    round_trips(b"11:hello world");
}

#[test]
fn round_trip_lists_and_dicts() {
    round_trips(b"le");
    round_trips(b"li1ei2e3:xyze");
    round_trips(b"de");
    round_trips(b"d3:cow3:moo4:spam4:eggse");
    round_trips(b"d4:spaml1:a1:bee");
}

#[test]
fn round_trip_preserves_dictionary_order() {
    // Keys out of lexicographic order are kept in serialized order.
    round_trips(b"d1:bi1e1:ai2ee");
}

#[test]
fn round_trip_torrent_like_document() {
    let mut doc: Vec<u8> = Vec::new();
    doc.extend_from_slice(b"d8:announce24:http://tracker.example/a4:infod6:lengthi12e");
    doc.extend_from_slice(b"4:name4:file12:piece lengthi4e6:pieces20:aaaaaaaaaaaaaaaaaaaaee");
    round_trips(&doc);
}

#[test]
fn decoded_values_have_expected_shape() {
    let buf: Vec<u8> = b"d3:fooi-7e3:bar3:baze".to_vec();
    match decode(&buf).unwrap() {
        Bvalue::Dict(entries) => {
            assert_eq!(entries.len(), 2);
            assert_eq!(entries[0].key, b"foo".to_vec());
            match &entries[0].value {
                Bvalue::Int(n) => assert_eq!(*n, -7),
                _ => panic!("foo should be an integer"),
            }
            assert_eq!(entries[1].key, b"bar".to_vec());
            match &entries[1].value {
                Bvalue::Bytes(b) => assert_eq!(b, &b"baz".to_vec()),
                _ => panic!("bar should be a byte string"),
            }
        }
        _ => panic!("document should be a dictionary"),
    }
}

#[test]
fn malformed_documents_are_rejected() {
    let cases: Vec<&[u8]> = vec![
        b"",
        b"i01e",
        b"i-0e",
        b"i--1e",
        b"i1",
        b"ie",
        b"5:abc",
        b"03:abc",
        b"i1ex",
        b"l",
        b"d3:fooe",
        b"x",
        b"i9223372036854775808e",
    ];
    for case in cases {
        let buf: Vec<u8> = case.to_vec();
        assert_eq!(decode(&buf).unwrap_err(), Error::Decode, "case {:?}", case);
    }
}
