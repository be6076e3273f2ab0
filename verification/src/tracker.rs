//! Tracker client logic: building the announce URL and decoding the
//! tracker's bencoded response with its compact peer list.
//!
//! The HTTP exchange itself happens outside the library; these functions
//! compute the exact request bytes and decode the exact response bytes.

use vstd::prelude::*;

use crate::bencode::{decode, entries_match, spec_encode_entries, Bvalue, DictEntry};
use crate::bytes::{copy_bytes, dec_digits, spec_dec_digits};
use crate::error::Error;
use crate::torrent::{lemma_dict_get_matches, lemma_whole_dict, opt_int_ok, opt_int_rel,
    spec_dict_get, Torrent};

verus! {

/// Bytes that percent-encoding passes through unchanged: ASCII
/// alphanumerics and `-`, `.`, `_`, `~`.
pub open spec fn url_safe(b: u8) -> bool {
    ||| 48 <= b <= 57
    ||| 65 <= b <= 90
    ||| 97 <= b <= 122
    ||| b == 45
    ||| b == 46
    ||| b == 95
    ||| b == 126
}

/// The upper-case hex digit of a nibble, as an ASCII byte.
pub open spec fn hex_digit_upper(n: u8) -> u8 {
    if n < 10 {
        (48 + n) as u8
    } else {
        (55 + n) as u8
    }
}

/// Percent-encoding of raw bytes: safe bytes stand as themselves, every
/// other byte becomes `%` and two upper-case hex digits.
pub open spec fn spec_percent_encode(data: Seq<u8>) -> Seq<u8>
    decreases data.len(),
{
    if data.len() == 0 {
        Seq::empty()
    } else {
        (if url_safe(data.first()) {
            seq![data.first()]
        } else {
            seq![37u8, hex_digit_upper(data.first() / 16), hex_digit_upper(data.first() % 16)]
        }) + spec_percent_encode(data.drop_first())
    }
}

/// Relies on `urlencoding::encode_binary`: percent-encodes every byte
/// except ASCII alphanumerics and `-`, `.`, `_`, `~`, with upper-case hex
/// digits.
#[verifier::external_body]
fn percent_encode(data: &Vec<u8>) -> (r: Vec<u8>)
    ensures
        r@ == spec_percent_encode(data@),
{
    urlencoding::encode_binary(data.as_slice()).into_owned().into_bytes()
}

/// `?info_hash=` as ASCII bytes.
pub open spec fn q_info_hash() -> Seq<u8> {
    seq!['?' as u8, 'i' as u8, 'n' as u8, 'f' as u8, 'o' as u8, '_' as u8, 'h' as u8, 'a' as u8,
        's' as u8, 'h' as u8, '=' as u8]
}

/// `&peer_id=` as ASCII bytes.
pub open spec fn q_peer_id() -> Seq<u8> {
    seq!['&' as u8, 'p' as u8, 'e' as u8, 'e' as u8, 'r' as u8, '_' as u8, 'i' as u8, 'd' as u8,
        '=' as u8]
}

/// `&port=` as ASCII bytes.
pub open spec fn q_port() -> Seq<u8> {
    seq!['&' as u8, 'p' as u8, 'o' as u8, 'r' as u8, 't' as u8, '=' as u8]
}

/// `&uploaded=0&downloaded=0&left=` as ASCII bytes.
pub open spec fn q_counters() -> Seq<u8> {
    seq!['&' as u8, 'u' as u8, 'p' as u8, 'l' as u8, 'o' as u8, 'a' as u8, 'd' as u8, 'e' as u8,
        'd' as u8, '=' as u8, '0' as u8, '&' as u8, 'd' as u8, 'o' as u8, 'w' as u8, 'n' as u8,
        'l' as u8, 'o' as u8, 'a' as u8, 'd' as u8, 'e' as u8, 'd' as u8, '=' as u8, '0' as u8,
        '&' as u8, 'l' as u8, 'e' as u8, 'f' as u8, 't' as u8, '=' as u8]
}

/// `&compact=1` as ASCII bytes.
pub open spec fn q_compact() -> Seq<u8> {
    seq!['&' as u8, 'c' as u8, 'o' as u8, 'm' as u8, 'p' as u8, 'a' as u8, 'c' as u8, 't' as u8,
        '=' as u8, '1' as u8]
}

/// The announce URL with the standard query: the percent-encoded info
/// hash, the raw 20-byte peer id, the listening port, zero counters, the
/// remaining byte count, and the compact flag.
pub open spec fn spec_tracker_url(
    announce: Seq<u8>,
    hash: Seq<u8>,
    peer_id: Seq<u8>,
    port: u16,
    left: u64,
) -> Seq<u8> {
    announce + q_info_hash() + spec_percent_encode(hash) + q_peer_id() + peer_id + q_port()
        + spec_dec_digits(port as nat) + q_counters() + spec_dec_digits(left as nat) + q_compact()
}

/// Builds the tracker GET URL for a torrent's announce address.
pub fn build_tracker_url(
    announce: &Vec<u8>,
    hash: &crate::hashing::InfoHash,
    peer_id: &Vec<u8>,
    port: u16,
    left: u64,
) -> (r: Vec<u8>)
    requires
        peer_id@.len() == 20,
    ensures
        r@ == spec_tracker_url(announce@, hash.bytes@, peer_id@, port, left),
{
    let mut out = copy_bytes(announce);
    let mut part: Vec<u8> = vec!['?' as u8, 'i' as u8, 'n' as u8, 'f' as u8, 'o' as u8, '_' as u8,
        'h' as u8, 'a' as u8, 's' as u8, 'h' as u8, '=' as u8];
    assert(part@ =~= q_info_hash());
    out.append(&mut part);
    let mut enc = percent_encode(&hash.bytes);
    out.append(&mut enc);
    let mut part2: Vec<u8> = vec!['&' as u8, 'p' as u8, 'e' as u8, 'e' as u8, 'r' as u8, '_' as u8,
        'i' as u8, 'd' as u8, '=' as u8];
    assert(part2@ =~= q_peer_id());
    out.append(&mut part2);
    let mut pid = copy_bytes(peer_id);
    out.append(&mut pid);
    let mut part3: Vec<u8> = vec!['&' as u8, 'p' as u8, 'o' as u8, 'r' as u8, 't' as u8, '=' as u8];
    assert(part3@ =~= q_port());
    out.append(&mut part3);
    let mut pnum = dec_digits(port as u64);
    out.append(&mut pnum);
    let mut part4: Vec<u8> = vec!['&' as u8, 'u' as u8, 'p' as u8, 'l' as u8, 'o' as u8, 'a' as u8,
        'd' as u8, 'e' as u8, 'd' as u8, '=' as u8, '0' as u8, '&' as u8, 'd' as u8, 'o' as u8,
        'w' as u8, 'n' as u8, 'l' as u8, 'o' as u8, 'a' as u8, 'd' as u8, 'e' as u8, 'd' as u8,
        '=' as u8, '0' as u8, '&' as u8, 'l' as u8, 'e' as u8, 'f' as u8, 't' as u8, '=' as u8];
    assert(part4@ =~= q_counters());
    out.append(&mut part4);
    let mut lnum = dec_digits(left);
    out.append(&mut lnum);
    let mut part5: Vec<u8> = vec!['&' as u8, 'c' as u8, 'o' as u8, 'm' as u8, 'p' as u8, 'a' as u8,
        'c' as u8, 't' as u8, '=' as u8, '1' as u8];
    assert(part5@ =~= q_compact());
    out.append(&mut part5);
    out
}

/// The torrent's announce URL, or `MissingTracker` when it has none.
pub fn announce_url(t: &Torrent) -> (r: Result<Vec<u8>, Error>)
    ensures
        t.announce matches Some(a) ==> (r matches Ok(u) && u@ == a@),
        t.announce is None <==> r == Err::<Vec<u8>, Error>(Error::MissingTracker),
{
    match &t.announce {
        Some(a) => Ok(copy_bytes(a)),
        None => Err(Error::MissingTracker),
    }
}

/// The tracker's decoded announce response.
#[derive(Debug)]
pub struct PeerDiscoveryResponse {
    pub peers: Vec<u8>,
    pub min_interval: Option<i64>,
    pub interval: Option<i64>,
    pub complete: Option<i64>,
    pub incomplete: Option<i64>,
}

pub open spec fn key_peers() -> Seq<u8> {
    seq!['p' as u8, 'e' as u8, 'e' as u8, 'r' as u8, 's' as u8]
}

pub open spec fn key_interval() -> Seq<u8> {
    seq!['i' as u8, 'n' as u8, 't' as u8, 'e' as u8, 'r' as u8, 'v' as u8, 'a' as u8, 'l' as u8]
}

pub open spec fn key_min_interval() -> Seq<u8> {
    seq!['m' as u8, 'i' as u8, 'n' as u8, ' ' as u8, 'i' as u8, 'n' as u8, 't' as u8, 'e' as u8,
        'r' as u8, 'v' as u8, 'a' as u8, 'l' as u8]
}

pub open spec fn key_complete() -> Seq<u8> {
    seq!['c' as u8, 'o' as u8, 'm' as u8, 'p' as u8, 'l' as u8, 'e' as u8, 't' as u8, 'e' as u8]
}

pub open spec fn key_incomplete() -> Seq<u8> {
    seq!['i' as u8, 'n' as u8, 'c' as u8, 'o' as u8, 'm' as u8, 'p' as u8, 'l' as u8, 'e' as u8,
        't' as u8, 'e' as u8]
}

/// Whether a decoded tracker response dictionary is well-shaped: a `peers`
/// byte string whose length is a multiple of six, and advisory integers
/// where present.
pub open spec fn spec_response_ok(entries: Seq<DictEntry>) -> bool {
    &&& (spec_dict_get(entries, key_peers()) matches Some(pv) && pv is Bytes
        && pv->Bytes_0@.len() % 6 == 0)
    &&& opt_int_ok(spec_dict_get(entries, key_interval()))
    &&& opt_int_ok(spec_dict_get(entries, key_min_interval()))
    &&& opt_int_ok(spec_dict_get(entries, key_complete()))
    &&& opt_int_ok(spec_dict_get(entries, key_incomplete()))
}

/// Relates a decoded tracker response dictionary to the extracted value.
pub open spec fn spec_response_rel(entries: Seq<DictEntry>, resp: PeerDiscoveryResponse) -> bool {
    &&& (spec_dict_get(entries, key_peers()) matches Some(pv) && resp.peers@ == pv->Bytes_0@)
    &&& opt_int_rel(spec_dict_get(entries, key_interval()), resp.interval)
    &&& opt_int_rel(spec_dict_get(entries, key_min_interval()), resp.min_interval)
    &&& opt_int_rel(spec_dict_get(entries, key_complete()), resp.complete)
    &&& opt_int_rel(spec_dict_get(entries, key_incomplete()), resp.incomplete)
}

/// Matched entry sequences satisfy the same tracker-response
/// well-shapedness conditions.
pub proof fn lemma_matches_response_ok(a: Seq<DictEntry>, b: Seq<DictEntry>)
    requires
        entries_match(a, b),
        spec_response_ok(b),
    ensures
        spec_response_ok(a),
{
    lemma_dict_get_matches(a, b, key_peers());
    lemma_dict_get_matches(a, b, key_interval());
    lemma_dict_get_matches(a, b, key_min_interval());
    lemma_dict_get_matches(a, b, key_complete());
    lemma_dict_get_matches(a, b, key_incomplete());
}

/// Decodes a tracker response body.  Any malformed body — bytes that are
/// not a bencoded dictionary, a missing or mistyped `peers` entry, or a
/// `peers` length that is not a multiple of six — fails with
/// `TrackerProtocol`; a well-shaped body is extracted exactly, and every
/// well-shaped body is accepted.
pub fn decode_tracker_response(body: &Vec<u8>) -> (r: Result<PeerDiscoveryResponse, Error>)
    ensures
        r matches Ok(resp) ==> exists|entries: Seq<DictEntry>|
            #![auto]
            body@ == seq![100u8] + spec_encode_entries(entries) + seq![101u8] && spec_response_ok(
                entries,
            ) && spec_response_rel(entries, resp) && resp.peers@.len() % 6 == 0,
        r matches Err(e) ==> e == Error::TrackerProtocol,
        (exists|entries: Seq<DictEntry>|
            body@ == seq![100u8] + spec_encode_entries(entries) + seq![101u8] && spec_response_ok(
                entries,
            )) ==> r is Ok,
{
    proof {
        if exists|s2: Seq<DictEntry>|
            body@ == seq![100u8] + spec_encode_entries(s2) + seq![101u8] && spec_response_ok(s2) {
            let s2 = choose|s2: Seq<DictEntry>|
                body@ == seq![100u8] + spec_encode_entries(s2) + seq![101u8] && spec_response_ok(
                    s2,
                );
            lemma_whole_dict(body@, s2);
        }
    }
    let value = match decode(body) {
        Ok(v) => v,
        Err(_) => {
            return Err(Error::TrackerProtocol);
        },
    };
    proof {
        if exists|s2: Seq<DictEntry>|
            body@ == seq![100u8] + spec_encode_entries(s2) + seq![101u8] && spec_response_ok(s2) {
            let s2 = choose|s2: Seq<DictEntry>|
                body@ == seq![100u8] + spec_encode_entries(s2) + seq![101u8] && spec_response_ok(
                    s2,
                );
            lemma_whole_dict(body@, s2);
            lemma_matches_response_ok(value->Dict_0@, s2);
        }
    }
    let entries = match &value {
        Bvalue::Dict(es) => es,
        _ => {
            return Err(Error::TrackerProtocol);
        },
    };
    let kpeers: Vec<u8> = vec!['p' as u8, 'e' as u8, 'e' as u8, 'r' as u8, 's' as u8];
    assert(kpeers@ =~= key_peers());
    let peers = match crate::torrent::get_req_bytes(entries, &kpeers) {
        Ok(x) => x,
        Err(_) => {
            return Err(Error::TrackerProtocol);
        },
    };
    if peers.len() % 6 != 0 {
        return Err(Error::TrackerProtocol);
    }
    let kint: Vec<u8> = vec!['i' as u8, 'n' as u8, 't' as u8, 'e' as u8, 'r' as u8, 'v' as u8,
        'a' as u8, 'l' as u8];
    assert(kint@ =~= key_interval());
    let interval = match crate::torrent::get_opt_int(entries, &kint) {
        Ok(x) => x,
        Err(_) => {
            return Err(Error::TrackerProtocol);
        },
    };
    let kmin: Vec<u8> = vec!['m' as u8, 'i' as u8, 'n' as u8, ' ' as u8, 'i' as u8, 'n' as u8,
        't' as u8, 'e' as u8, 'r' as u8, 'v' as u8, 'a' as u8, 'l' as u8];
    assert(kmin@ =~= key_min_interval());
    let min_interval = match crate::torrent::get_opt_int(entries, &kmin) {
        Ok(x) => x,
        Err(_) => {
            return Err(Error::TrackerProtocol);
        },
    };
    let kcomp: Vec<u8> = vec!['c' as u8, 'o' as u8, 'm' as u8, 'p' as u8, 'l' as u8, 'e' as u8,
        't' as u8, 'e' as u8];
    assert(kcomp@ =~= key_complete());
    let complete = match crate::torrent::get_opt_int(entries, &kcomp) {
        Ok(x) => x,
        Err(_) => {
            return Err(Error::TrackerProtocol);
        },
    };
    let kinc: Vec<u8> = vec!['i' as u8, 'n' as u8, 'c' as u8, 'o' as u8, 'm' as u8, 'p' as u8,
        'l' as u8, 'e' as u8, 't' as u8, 'e' as u8];
    assert(kinc@ =~= key_incomplete());
    let incomplete = match crate::torrent::get_opt_int(entries, &kinc) {
        Ok(x) => x,
        Err(_) => {
            return Err(Error::TrackerProtocol);
        },
    };
    let resp = PeerDiscoveryResponse { peers, min_interval, interval, complete, incomplete };
    proof {
        assert(spec_response_ok(value->Dict_0@));
        assert(spec_response_rel(value->Dict_0@, resp));
    }
    Ok(resp)
}

/// One discovered peer: an IPv4 address and a port, decoded from the
/// 6-byte compact form.
#[derive(Clone, Copy, Debug, PartialEq, Eq, Structural)]
pub struct PeerAddress {
    pub o1: u8,
    pub o2: u8,
    pub o3: u8,
    pub o4: u8,
    pub port: u16,
}

/// The peer encoded at chunk `k` of a compact peer list: four address
/// bytes, then a big-endian 16-bit port.
pub open spec fn spec_peer_at(peers: Seq<u8>, k: int) -> PeerAddress {
    PeerAddress {
        o1: peers[6 * k],
        o2: peers[6 * k + 1],
        o3: peers[6 * k + 2],
        o4: peers[6 * k + 3],
        port: (peers[6 * k + 4] * 256 + peers[6 * k + 5]) as u16,
    }
}

/// Chunk `k` of a table of 6-byte entries lies within the table.
proof fn lemma_chunk6_in_bounds(len: int, k: int)
    requires
        len % 6 == 0,
        0 <= k < len / 6,
    ensures
        6 * k + 6 <= len,
{
    assert(6 * k + 6 <= len) by (nonlinear_arith)
        requires
            len % 6 == 0,
            0 <= k < len / 6,
    ;
}

/// Decodes a compact peer list: exactly one `PeerAddress` per 6-byte
/// chunk, in response order.  A length that is not a multiple of six fails
/// with `TrackerProtocol`.
pub fn parse_peers(peers: &Vec<u8>) -> (r: Result<Vec<PeerAddress>, Error>)
    ensures
        peers@.len() % 6 == 0 ==> (r matches Ok(out) && out@.len() == peers@.len() / 6 && forall|
            k: int,
        | 0 <= k < out@.len() ==> out@[k] == spec_peer_at(peers@, k)),
        peers@.len() % 6 != 0 ==> (r matches Err(e) && e == Error::TrackerProtocol),
{
    let len = peers.len();
    if len % 6 != 0 {
        return Err(Error::TrackerProtocol);
    }
    let n = len / 6;
    let mut out: Vec<PeerAddress> = Vec::new();
    let mut k: usize = 0;
    while k < n
        invariant
            len == peers@.len(),
            len % 6 == 0,
            n == len / 6,
            k <= n,
            out@.len() == k,
            forall|j: int| 0 <= j < k ==> out@[j] == spec_peer_at(peers@, j),
        decreases n - k,
    {
        proof {
            lemma_chunk6_in_bounds(len as int, k as int);
        }
        let base = 6 * k;
        let port: u16 = (peers[base + 4] as u16) * 256 + (peers[base + 5] as u16);
        out.push(
            PeerAddress {
                o1: peers[base],
                o2: peers[base + 1],
                o3: peers[base + 2],
                o4: peers[base + 3],
                port,
            },
        );
        k += 1;
    }
    Ok(out)
}

/// The textual form of a peer address, `a.b.c.d:port`, as ASCII bytes.
pub open spec fn spec_render_peer(p: PeerAddress) -> Seq<u8> {
    spec_dec_digits(p.o1 as nat) + seq!['.' as u8] + spec_dec_digits(p.o2 as nat) + seq![
        '.' as u8,
    ] + spec_dec_digits(p.o3 as nat) + seq!['.' as u8] + spec_dec_digits(p.o4 as nat) + seq![
        ':' as u8,
    ] + spec_dec_digits(p.port as nat)
}

impl PeerAddress {
    /// Renders the address as `a.b.c.d:port` in ASCII.
    pub fn render(&self) -> (r: Vec<u8>)
        ensures
            r@ == spec_render_peer(*self),
    {
        let mut out = dec_digits(self.o1 as u64);
        out.push('.' as u8);
        let mut p2 = dec_digits(self.o2 as u64);
        out.append(&mut p2);
        out.push('.' as u8);
        let mut p3 = dec_digits(self.o3 as u64);
        out.append(&mut p3);
        out.push('.' as u8);
        let mut p4 = dec_digits(self.o4 as u64);
        out.append(&mut p4);
        out.push(':' as u8);
        let mut pp = dec_digits(self.port as u64);
        out.append(&mut pp);
        assert(out@ =~= spec_render_peer(*self));
        out
    }
}

} // verus!
