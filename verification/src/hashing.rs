//! Info-hash and piece-hash calculation.
//!
//! The info hash is the SHA-1 digest of the verbatim `info` value bytes that
//! the parser recorded — never of a re-encoding — because other clients
//! identify a torrent strictly by the hash of the published bytes.

use vstd::prelude::*;

use sha1::{Digest, Sha1};

use crate::bytes::{bytes_eq, copy_range};
use crate::error::Error;
use crate::torrent::{File, Info, Torrent};

verus! {

/// The SHA-1 digest of a byte sequence.  The digest depends on the input
/// bytes alone; its definition is left to the hashing crate.
pub uninterp spec fn sha1_of(data: Seq<u8>) -> Seq<u8>;

/// Relies on `sha1::Sha1` through the `Digest` interface: `update` then
/// `finalize` produces the 20-byte SHA-1 digest of the input, a function of
/// the input bytes alone.
#[verifier::external_body]
fn sha1_digest(data: &Vec<u8>) -> (r: Vec<u8>)
    ensures
        r@ == sha1_of(data@),
        r@.len() == 20,
{
    let mut hasher = Sha1::new();
    hasher.update(data.as_slice());
    hasher.finalize().to_vec()
}

/// The lower-case hex digit of a nibble.
pub open spec fn hex_digit(n: u8) -> char {
    if n < 10 {
        (48 + n) as char
    } else {
        (87 + n) as char
    }
}

/// Lower-case hex encoding: two digits per byte, high nibble first.
pub open spec fn spec_hex_lower(data: Seq<u8>) -> Seq<char>
    decreases data.len(),
{
    if data.len() == 0 {
        Seq::empty()
    } else {
        seq![hex_digit(data.first() / 16), hex_digit(data.first() % 16)] + spec_hex_lower(
            data.drop_first(),
        )
    }
}

/// Relies on `hex::encode`: the lower-case hex string of the input, two
/// digits per byte, high nibble first.
#[verifier::external_body]
fn hex_encode(data: &Vec<u8>) -> (r: String)
    ensures
        r@ == spec_hex_lower(data@),
{
    hex::encode(data.as_slice())
}

/// The 20-byte identifier of a torrent's content.
#[derive(Debug)]
pub struct InfoHash {
    pub bytes: Vec<u8>,
}

impl InfoHash {
    /// An info hash is exactly 20 bytes.
    pub open spec fn wf(self) -> bool {
        self.bytes@.len() == 20
    }

    /// The lower-case hex rendering of the hash, for display.
    pub fn to_hex(&self) -> (r: String)
        ensures
            r@ == spec_hex_lower(self.bytes@),
    {
        hex_encode(&self.bytes)
    }
}

/// Computes the info hash of a parsed torrent: the SHA-1 digest of the
/// verbatim `info` value bytes recorded by the parser.
pub fn calculate_info_hash(t: &Torrent) -> (r: InfoHash)
    ensures
        r.bytes@ == sha1_of(t.info_bytes@),
        r.wf(),
{
    InfoHash { bytes: sha1_digest(&t.info_bytes) }
}

/// The info hash is deterministic: two runs over the same recorded `info`
/// bytes yield the same 20 bytes, however the rest of each torrent is
/// populated.
pub proof fn lemma_info_hash_deterministic(t1: Torrent, t2: Torrent, h1: InfoHash, h2: InfoHash)
    requires
        t1.info_bytes@ == t2.info_bytes@,
        h1.bytes@ == sha1_of(t1.info_bytes@),
        h2.bytes@ == sha1_of(t2.info_bytes@),
    ensures
        h1.bytes@ == h2.bytes@,
{
}

/// The sum of the file lengths of a multi-file torrent.
pub open spec fn spec_sum_lengths(fl: Seq<File>) -> int
    decreases fl.len(),
{
    if fl.len() == 0 {
        0
    } else {
        fl.first().length + spec_sum_lengths(fl.drop_first())
    }
}

impl Info {
    /// The total content length: the single `length`, or the sum over the
    /// file entries.
    pub open spec fn spec_total_length(self) -> int {
        match self.length {
            Some(l) => l as int,
            None => match self.files {
                Some(fl) => spec_sum_lengths(fl@),
                None => 0,
            },
        }
    }

    /// The number of pieces declared by the piece table.
    pub open spec fn spec_num_pieces(self) -> int {
        (self.pieces@.len() as int) / 20
    }

    /// The 20-byte hash declared for piece `i`.
    pub open spec fn spec_piece_hash(self, i: int) -> Seq<u8> {
        self.pieces@.subrange(20 * i, 20 * i + 20)
    }

    /// Consistent piece geometry: a positive piece length, and one declared
    /// hash per piece of the content, the last piece possibly short.
    pub open spec fn geometry_ok(self) -> bool {
        &&& self.piece_length > 0
        &&& self.spec_total_length() >= 0
        &&& self.pieces@.len() == 20 * ((self.spec_total_length() + self.piece_length - 1)
            / (self.piece_length as int))
    }

    /// Whether every partial sum of the file lengths stays a nonnegative
    /// 64-bit value, so that the total can be computed exactly.
    pub open spec fn spec_sum_ok(fl: Seq<File>, acc: int) -> bool
        decreases fl.len(),
    {
        if fl.len() == 0 {
            true
        } else {
            0 <= fl.first().length && acc + fl.first().length <= i64::MAX && Self::spec_sum_ok(
                fl.drop_first(),
                acc + fl.first().length,
            )
        }
    }

    /// The total content length: the single `length` field, or the sum of
    /// the file lengths.  The sum is computed exactly when every partial
    /// sum stays a nonnegative 64-bit value, and refused otherwise.
    #[verifier::loop_isolation(false)]
    pub fn total_length(&self) -> (r: Option<i64>)
        ensures
            r matches Some(v) ==> v == self.spec_total_length(),
            self.length is Some ==> r == self.length,
            (self.length is None && self.files is Some) ==> (r is Some <==> Self::spec_sum_ok(
                self.files->0@,
                0,
            )),
            self.length is None && self.files is None ==> r == Some(0i64),
    {
        match &self.length {
            Some(l) => Some(*l),
            None => match &self.files {
                Some(fl) => {
                    let n = fl.len();
                    let mut acc: i64 = 0;
                    let mut i: usize = 0;
                    proof {
                        assert(fl@.skip(0) =~= fl@);
                    }
                    while i < n
                        invariant
                            n == fl@.len(),
                            i <= n,
                            0 <= acc,
                            acc as int + spec_sum_lengths(fl@.skip(i as int)) == spec_sum_lengths(
                                fl@,
                            ),
                            Self::spec_sum_ok(fl@, 0) <==> Self::spec_sum_ok(
                                fl@.skip(i as int),
                                acc as int,
                            ),
                        decreases n - i,
                    {
                        proof {
                            assert(fl@.skip(i as int).first() == fl@[i as int]);
                            assert(fl@.skip(i as int).drop_first() =~= fl@.skip(i + 1));
                        }
                        let l = fl[i].length;
                        if l < 0 || (l >= 0 && acc > i64::MAX - l) {
                            proof {
                                assert(!Self::spec_sum_ok(fl@.skip(i as int), acc as int));
                            }
                            return None;
                        }
                        acc = acc + l;
                        i += 1;
                    }
                    proof {
                        assert(fl@.skip(n as int) =~= Seq::<File>::empty());
                    }
                    Some(acc)
                },
                None => Some(0),
            },
        }
    }

    /// The number of pieces in the table.
    pub fn num_pieces(&self) -> (r: usize)
        ensures
            r == self.spec_num_pieces(),
    {
        self.pieces.len() / 20
    }

    /// A copy of the declared hash of piece `i`.
    pub fn piece_hash(&self, i: usize) -> (r: Vec<u8>)
        requires
            self.wf(),
            i < self.spec_num_pieces(),
        ensures
            r@ == self.spec_piece_hash(i as int),
    {
        let len = self.pieces.len();
        proof {
            lemma_chunk_in_bounds(len as int, i as int);
        }
        copy_range(&self.pieces, 20 * i, 20 * i + 20)
    }

    /// The lower-case hex renderings of all declared piece hashes, in piece
    /// order, for display.
    pub fn piece_hashes_hex(&self) -> (r: Vec<String>)
        requires
            self.wf(),
        ensures
            r@.len() == self.spec_num_pieces(),
            forall|i: int| 0 <= i < r@.len() ==> (#[trigger] r@[i])@ == spec_hex_lower(
                self.spec_piece_hash(i),
            ),
    {
        let n = self.num_pieces();
        let mut out: Vec<String> = Vec::new();
        let mut i: usize = 0;
        while i < n
            invariant
                n == self.spec_num_pieces(),
                self.wf(),
                i <= n,
                out@.len() == i,
                forall|j: int| 0 <= j < i ==> (#[trigger] out@[j])@ == spec_hex_lower(
                    self.spec_piece_hash(j),
                ),
            decreases n - i,
        {
            let h = self.piece_hash(i);
            out.push(hex_encode(&h));
            i += 1;
        }
        out
    }
}

/// Chunk `i` of a table of 20-byte entries lies within the table.
proof fn lemma_chunk_in_bounds(len: int, i: int)
    requires
        len % 20 == 0,
        0 <= i < len / 20,
    ensures
        20 * i + 20 <= len,
{
    assert(20 * i + 20 <= len) by (nonlinear_arith)
        requires
            len % 20 == 0,
            0 <= i < len / 20,
    ;
}

/// The piece table of an `Info` with consistent geometry: the table length
/// is exactly twenty times the number of pieces, which is the rounded-up
/// ratio of content length to piece length; each piece index owns its own
/// 20-byte chunk, and chunks of distinct indices do not overlap.
pub proof fn lemma_piece_table(inf: Info)
    requires
        inf.geometry_ok(),
    ensures
        inf.pieces@.len() == 20 * ((inf.spec_total_length() + inf.piece_length - 1)
            / (inf.piece_length as int)),
        inf.spec_num_pieces() == (inf.spec_total_length() + inf.piece_length - 1)
            / (inf.piece_length as int),
        forall|i: int| 0 <= i < inf.spec_num_pieces() ==> (#[trigger] inf.spec_piece_hash(i))
            == inf.pieces@.subrange(20 * i, 20 * i + 20),
{
    let k = (inf.spec_total_length() + inf.piece_length - 1) / (inf.piece_length as int);
    assert(inf.pieces@.len() == 20 * k);
    assert((20 * k) / 20 == k) by (nonlinear_arith);
}

/// Chunks of distinct piece indices never overlap: the chunk of the lower
/// index ends before the chunk of the higher index begins.
pub proof fn lemma_piece_chunks_disjoint(inf: Info, i: int, j: int)
    requires
        0 <= i < j < inf.spec_num_pieces(),
    ensures
        20 * i + 20 <= 20 * j,
{
    assert(20 * i + 20 <= 20 * j) by (nonlinear_arith)
        requires
            i < j,
    ;
}

/// Checks a downloaded piece against its declared hash: succeeds exactly
/// when the SHA-1 digest of the piece equals the expected 20 bytes.
pub fn verify_piece(piece: &Vec<u8>, expected: &Vec<u8>) -> (r: Result<(), Error>)
    ensures
        r is Ok <==> sha1_of(piece@) == expected@,
        r matches Err(e) ==> e == Error::PieceHashMismatch,
{
    let digest = sha1_digest(piece);
    if bytes_eq(&digest, expected) {
        Ok(())
    } else {
        Err(Error::PieceHashMismatch)
    }
}

} // verus!
