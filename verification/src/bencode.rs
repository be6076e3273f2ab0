//! Bencode: the length-prefixed, dictionary-based serialization format of
//! torrent metadata and tracker responses.
//!
//! `spec_encode` gives the canonical byte encoding of a value.  The decoder
//! guarantees that the bytes it consumed are exactly the canonical encoding
//! of the value it returns, so decoding followed by re-encoding reproduces
//! the input byte for byte (the round-trip law).

use vstd::prelude::*;

use crate::bytes::{copy_range, lemma_dec_digits_are_digits, lemma_dec_digits_extend_bound,
    lemma_dec_digits_leading, lemma_dec_digits_len, lemma_dec_digits_prefix_bound,
    lemma_dec_digits_step, lemma_dec_digits_unique, spec_dec_digits};
use crate::error::Error;

verus! {

broadcast use vstd::std_specs::vec::group_vec_axioms;

/// One bencoded value: an integer, a byte string, a list, or a dictionary
/// whose entries keep their serialized order.
#[derive(Debug)]
pub enum Bvalue {
    Int(i64),
    Bytes(Vec<u8>),
    List(Vec<Bvalue>),
    Dict(Vec<DictEntry>),
}

/// One key/value pair of a bencoded dictionary, in serialized order.
#[derive(Debug)]
pub struct DictEntry {
    pub key: Vec<u8>,
    pub value: Bvalue,
}

/// Canonical encoding of an integer value body: an optional minus sign and
/// the decimal digits without leading zeros.
pub open spec fn spec_encode_int(n: int) -> Seq<u8> {
    if n < 0 {
        seq![45u8] + spec_dec_digits((-n) as nat)
    } else {
        spec_dec_digits(n as nat)
    }
}

/// Canonical encoding of a byte string: `<len>:<bytes>`.
pub open spec fn spec_encode_bytes(s: Seq<u8>) -> Seq<u8> {
    spec_dec_digits(s.len()) + seq![58u8] + s
}

/// Canonical encoding of a bencoded value.
pub open spec fn spec_encode(v: Bvalue) -> Seq<u8>
    decreases v,
{
    match v {
        Bvalue::Int(n) => seq![105u8] + spec_encode_int(n as int) + seq![101u8],
        Bvalue::Bytes(b) => spec_encode_bytes(b@),
        Bvalue::List(items) => seq![108u8] + spec_encode_seq(items@) + seq![101u8],
        Bvalue::Dict(entries) => seq![100u8] + spec_encode_entries(entries@) + seq![101u8],
    }
}

/// Concatenated encodings of the elements of a list.
pub open spec fn spec_encode_seq(s: Seq<Bvalue>) -> Seq<u8>
    decreases s,
{
    if s.len() == 0 {
        Seq::empty()
    } else {
        spec_encode(s.first()) + spec_encode_seq(s.drop_first())
    }
}

/// Concatenated encodings of the entries of a dictionary.
pub open spec fn spec_encode_entries(s: Seq<DictEntry>) -> Seq<u8>
    decreases s,
{
    if s.len() == 0 {
        Seq::empty()
    } else {
        spec_encode_bytes(s.first().key@) + spec_encode(s.first().value) + spec_encode_entries(
            s.drop_first(),
        )
    }
}

pub proof fn lemma_encode_seq_push(s: Seq<Bvalue>, v: Bvalue)
    ensures
        spec_encode_seq(s.push(v)) == spec_encode_seq(s) + spec_encode(v),
    decreases s,
{
    if s.len() == 0 {
        assert(s.push(v).drop_first() =~= s);
        assert(spec_encode_seq(s.push(v)) =~= spec_encode_seq(s) + spec_encode(v));
    } else {
        assert(s.push(v).drop_first() =~= s.drop_first().push(v));
        lemma_encode_seq_push(s.drop_first(), v);
        assert(spec_encode_seq(s.push(v)) =~= spec_encode_seq(s) + spec_encode(v));
    }
}

pub proof fn lemma_encode_entries_push(s: Seq<DictEntry>, e: DictEntry)
    ensures
        spec_encode_entries(s.push(e)) == spec_encode_entries(s) + spec_encode_bytes(e.key@)
            + spec_encode(e.value),
    decreases s,
{
    if s.len() == 0 {
        assert(s.push(e).drop_first() =~= s);
        assert(spec_encode_entries(s.push(e)) =~= spec_encode_entries(s) + spec_encode_bytes(e.key@)
            + spec_encode(e.value));
    } else {
        assert(s.push(e).drop_first() =~= s.drop_first().push(e));
        lemma_encode_entries_push(s.drop_first(), e);
        assert(spec_encode_entries(s.push(e)) =~= spec_encode_entries(s) + spec_encode_bytes(e.key@)
            + spec_encode(e.value));
    }
}

/// An ASCII decimal digit.
pub open spec fn is_digit_byte(b: u8) -> bool {
    48 <= b <= 57
}

/// The canonical digit string of `m` occupies `buf[pos..end]`, followed by
/// a non-digit byte (or the end of the buffer), so the run is maximal.
pub open spec fn digit_run_at(buf: Seq<u8>, pos: int, end: int, m: u64) -> bool {
    &&& 0 <= pos <= end <= buf.len()
    &&& buf.subrange(pos, end) == spec_dec_digits(m as nat)
    &&& (end == buf.len() || !is_digit_byte(buf[end]))
}

/// The canonical byte-string encoding of `s` occupies `buf[pos..end]`.
pub open spec fn bytes_encoding_at(buf: Seq<u8>, pos: int, end: int, s: Seq<u8>) -> bool {
    &&& 0 <= pos <= end <= buf.len()
    &&& buf.subrange(pos, end) == spec_encode_bytes(s)
}

/// The canonical encoding of `v` occupies `buf[pos..end]`.
pub open spec fn encoding_at(buf: Seq<u8>, pos: int, end: int, v: Bvalue) -> bool {
    &&& 0 <= pos <= end <= buf.len()
    &&& buf.subrange(pos, end) == spec_encode(v)
}

/// A dictionary with the entry sequence `s` is encoded at `buf[pos..end]`.
pub open spec fn entries_encoding_at(buf: Seq<u8>, pos: int, end: int, s: Seq<DictEntry>) -> bool {
    &&& 0 <= pos < end <= buf.len()
    &&& buf[pos] == 100
    &&& buf[end - 1] == 101
    &&& buf.subrange(pos + 1, end - 1) == spec_encode_entries(s)
}

/// Structural equality of two values up to the views of the vectors they
/// hold: same variants, same integers, same bytes, matching children.
pub open spec fn value_matches(a: Bvalue, b: Bvalue) -> bool
    decreases a,
{
    match a {
        Bvalue::Int(n) => b matches Bvalue::Int(n2) && n == n2,
        Bvalue::Bytes(x) => b matches Bvalue::Bytes(y) && x@ == y@,
        Bvalue::List(xs) => b matches Bvalue::List(ys) && xs@.len() == ys@.len() && (forall|i: int|
            0 <= i < xs@.len() ==> value_matches(#[trigger] xs@[i], ys@[i])),
        Bvalue::Dict(xs) => b matches Bvalue::Dict(ys) && xs@.len() == ys@.len() && (forall|i: int|
            0 <= i < xs@.len() ==> entry_matches(#[trigger] xs@[i], ys@[i])),
    }
}

/// Entry equality up to views: equal key bytes and matching values.
pub open spec fn entry_matches(a: DictEntry, b: DictEntry) -> bool
    decreases a,
{
    a.key@ == b.key@ && value_matches(a.value, b.value)
}

/// Elementwise `entry_matches` over whole entry sequences.
pub open spec fn entries_match(a: Seq<DictEntry>, b: Seq<DictEntry>) -> bool {
    a.len() == b.len() && forall|i: int| 0 <= i < a.len() ==> entry_matches(#[trigger] a[i], b[i])
}

/// The first byte of an encoding identifies the variant, every encoding is
/// at least two bytes, and no encoding starts with the terminator `e`.
pub proof fn lemma_encode_first(v: Bvalue)
    ensures
        spec_encode(v).len() >= 2,
        v is Int ==> spec_encode(v)[0] == 105,
        v is Bytes ==> is_digit_byte(spec_encode(v)[0]),
        v is List ==> spec_encode(v)[0] == 108,
        v is Dict ==> spec_encode(v)[0] == 100,
        spec_encode(v)[0] != 101,
{
    match v {
        Bvalue::Int(n) => {
            if n < 0 {
                lemma_dec_digits_len((-(n as int)) as nat);
            } else {
                lemma_dec_digits_len(n as nat);
            }
        },
        Bvalue::Bytes(b) => {
            lemma_dec_digits_len(b@.len());
            lemma_dec_digits_are_digits(b@.len());
            assert(spec_encode(v)[0] == spec_dec_digits(b@.len())[0]);
        },
        Bvalue::List(items) => {},
        Bvalue::Dict(entries) => {},
    }
}

/// A list-body encoding splits at any element boundary.
pub proof fn lemma_encode_seq_split(s: Seq<Bvalue>, k: int)
    requires
        0 <= k <= s.len(),
    ensures
        spec_encode_seq(s) == spec_encode_seq(s.take(k)) + spec_encode_seq(s.skip(k)),
    decreases k,
{
    if k == 0 {
        assert(s.take(0) =~= Seq::<Bvalue>::empty());
        assert(s.skip(0) =~= s);
        assert(spec_encode_seq(s) =~= spec_encode_seq(s.take(0)) + spec_encode_seq(s.skip(0)));
    } else {
        let t = s.drop_first();
        lemma_encode_seq_split(t, k - 1);
        assert(s.take(k).first() == s[0]);
        assert(s.take(k).drop_first() =~= t.take(k - 1));
        assert(s.skip(k) =~= t.skip(k - 1));
        assert(spec_encode_seq(s) =~= spec_encode_seq(s.take(k)) + spec_encode_seq(s.skip(k)));
    }
}

/// The tail of a list body starts with the encoding of its next element.
pub proof fn lemma_encode_seq_skip_step(s: Seq<Bvalue>, k: int)
    requires
        0 <= k < s.len(),
    ensures
        spec_encode_seq(s.skip(k)) == spec_encode(s[k]) + spec_encode_seq(s.skip(k + 1)),
{
    assert(s.skip(k).first() == s[k]);
    assert(s.skip(k).drop_first() =~= s.skip(k + 1));
}

/// A dictionary-body encoding splits at any entry boundary.
pub proof fn lemma_encode_entries_split(s: Seq<DictEntry>, k: int)
    requires
        0 <= k <= s.len(),
    ensures
        spec_encode_entries(s) == spec_encode_entries(s.take(k)) + spec_encode_entries(s.skip(k)),
    decreases k,
{
    if k == 0 {
        assert(s.take(0) =~= Seq::<DictEntry>::empty());
        assert(s.skip(0) =~= s);
        assert(spec_encode_entries(s) =~= spec_encode_entries(s.take(0)) + spec_encode_entries(
            s.skip(0),
        ));
    } else {
        let t = s.drop_first();
        lemma_encode_entries_split(t, k - 1);
        assert(s.take(k).first() == s[0]);
        assert(s.take(k).drop_first() =~= t.take(k - 1));
        assert(s.skip(k) =~= t.skip(k - 1));
        assert(spec_encode_entries(s) =~= spec_encode_entries(s.take(k)) + spec_encode_entries(
            s.skip(k),
        ));
    }
}

/// The tail of a dictionary body starts with its next entry's key and
/// value encodings.
pub proof fn lemma_encode_entries_skip_step(s: Seq<DictEntry>, k: int)
    requires
        0 <= k < s.len(),
    ensures
        spec_encode_entries(s.skip(k)) == spec_encode_bytes(s[k].key@) + spec_encode(s[k].value)
            + spec_encode_entries(s.skip(k + 1)),
{
    assert(s.skip(k).first() == s[k]);
    assert(s.skip(k).drop_first() =~= s.skip(k + 1));
}

/// Parses a canonical unsigned decimal number at `pos`: either the single
/// digit `0`, or a digit run starting with a nonzero digit.  The consumed
/// bytes are exactly the canonical digit string of the value, and every
/// maximal canonical digit run at `pos` is accepted, with its exact value
/// and extent.
#[verifier::loop_isolation(false)]
fn parse_uint(buf: &Vec<u8>, pos: usize) -> (r: Result<(u64, usize), Error>)
    requires
        pos <= buf@.len(),
    ensures
        r matches Ok(p) ==> pos < p.1 <= buf@.len() && buf@.subrange(pos as int, p.1 as int)
            == spec_dec_digits(p.0 as nat),
        r matches Err(e) ==> e == Error::Decode,
        forall|m: u64, end: int| digit_run_at(buf@, pos as int, end, m) ==> (r matches Ok(p) && p.1
            == end && p.0 == m),
{
    if pos >= buf.len() {
        proof {
            assert forall|m: u64, end: int| !digit_run_at(buf@, pos as int, end, m) by {
                if digit_run_at(buf@, pos as int, end, m) {
                    lemma_dec_digits_len(m as nat);
                }
            }
        }
        return Err(Error::Decode);
    }
    let d0 = buf[pos];
    if d0 < 48 || d0 > 57 {
        proof {
            assert forall|m: u64, end: int| !digit_run_at(buf@, pos as int, end, m) by {
                if digit_run_at(buf@, pos as int, end, m) {
                    lemma_dec_digits_len(m as nat);
                    lemma_dec_digits_are_digits(m as nat);
                    assert(buf@[pos as int] == spec_dec_digits(m as nat)[0]);
                }
            }
        }
        return Err(Error::Decode);
    }
    if d0 == 48 {
        assert(buf@.subrange(pos as int, pos + 1) =~= spec_dec_digits(0));
        proof {
            assert forall|m: u64, end: int| digit_run_at(buf@, pos as int, end, m) implies end
                == pos + 1 && m == 0 by {
                lemma_dec_digits_len(m as nat);
                if m >= 1 {
                    lemma_dec_digits_leading(m as nat);
                    assert(buf@[pos as int] == spec_dec_digits(m as nat)[0]);
                    assert(false);
                }
                assert(spec_dec_digits(0).len() == 1);
            }
        }
        return Ok((0, pos + 1));
    }
    let mut v: u64 = (d0 - 48) as u64;
    let mut p: usize = pos + 1;
    assert(buf@.subrange(pos as int, p as int) =~= spec_dec_digits(v as nat));
    while p < buf.len() && buf[p] >= 48 && buf[p] <= 57
        invariant
            pos < p <= buf@.len(),
            1 <= v,
            buf@.subrange(pos as int, p as int) == spec_dec_digits(v as nat),
        decreases buf@.len() - p,
    {
        let d: u64 = (buf[p] - 48) as u64;
        // One more digit would overflow a 64-bit value.
        if v > u64::MAX / 10 || (v == u64::MAX / 10 && d > u64::MAX % 10) {
            proof {
                assert forall|m: u64, end: int| !digit_run_at(buf@, pos as int, end, m) by {
                    if digit_run_at(buf@, pos as int, end, m) {
                        lemma_dec_digits_are_digits(m as nat);
                        lemma_dec_digits_are_digits(v as nat);
                        if end < p {
                            assert(buf@[end] == spec_dec_digits(v as nat)[end - pos]);
                            assert(false);
                        } else if end == p {
                            assert(false);
                        } else {
                            assert(spec_dec_digits(m as nat).take(p - pos) =~= spec_dec_digits(
                                v as nat,
                            ));
                            assert(spec_dec_digits(m as nat)[p - pos] == buf@[p as int]);
                            lemma_dec_digits_extend_bound(m as nat, v as nat, d as nat, p - pos);
                            assert(false);
                        }
                    }
                }
            }
            return Err(Error::Decode);
        }
        proof {
            lemma_dec_digits_step(v as nat, d as nat);
            assert(buf@.subrange(pos as int, p + 1) =~= buf@.subrange(pos as int, p as int)
                + seq![buf@[p as int]]);
        }
        v = v * 10 + d;
        p += 1;
    }
    proof {
        assert forall|m: u64, end: int| digit_run_at(buf@, pos as int, end, m) implies end
            == p && m == v by {
            lemma_dec_digits_are_digits(m as nat);
            lemma_dec_digits_are_digits(v as nat);
            if end < p {
                assert(buf@[end] == spec_dec_digits(v as nat)[end - pos]);
                assert(false);
            } else if end > p {
                assert(buf@[p as int] == spec_dec_digits(m as nat)[p - pos]);
                assert(false);
            }
            assert(spec_dec_digits(m as nat) == buf@.subrange(pos as int, end));
            lemma_dec_digits_unique(m as nat, v as nat);
        }
    }
    Ok((v, p))
}

/// The pieces of a byte-string encoding at `buf[pos..end]`: a maximal
/// canonical digit run for the length, a colon, then the bytes.
pub proof fn lemma_bytes_encoding_parts(buf: Seq<u8>, pos: int, end: int, s: Seq<u8>)
    requires
        bytes_encoding_at(buf, pos, end, s),
        buf.len() <= usize::MAX,
    ensures
        s.len() <= u64::MAX,
        pos + spec_dec_digits(s.len()).len() < end,
        digit_run_at(buf, pos, pos + spec_dec_digits(s.len()).len(), s.len() as u64),
        buf[pos + spec_dec_digits(s.len()).len()] == 58,
        end == pos + spec_dec_digits(s.len()).len() + 1 + s.len(),
        buf.subrange(pos + spec_dec_digits(s.len()).len() + 1, end) == s,
{
    lemma_dec_digits_len(s.len());
    let dl = spec_dec_digits(s.len()).len() as int;
    assert(spec_encode_bytes(s) == spec_dec_digits(s.len()) + seq![58u8] + s);
    assert(spec_encode_bytes(s).len() == dl + 1 + s.len());
    assert(buf.subrange(pos, end).len() == end - pos);
    assert(end - pos == dl + 1 + s.len());
    assert(buf.subrange(pos, pos + dl) =~= spec_dec_digits(s.len()));
    assert(buf[pos + dl] == spec_encode_bytes(s)[dl]);
    assert forall|i: int| 0 <= i < s.len() implies buf[pos + dl + 1 + i] == s[i] by {
        assert(buf[pos + dl + 1 + i] == buf.subrange(pos, end)[dl + 1 + i]);
        assert(spec_encode_bytes(s)[dl + 1 + i] == s[i]);
    }
    assert(buf.subrange(pos + dl + 1, end) =~= s);
    assert((s.len() as u64) as nat == s.len());
    assert(!is_digit_byte(buf[pos + dl]));
}

/// Parses a byte string `<len>:<bytes>` at `pos`.  A declared length that
/// exceeds the remaining buffer is a decode error.  The consumed bytes are
/// exactly the canonical encoding of the returned bytes, and every
/// byte-string encoding at `pos` is accepted, with its exact contents and
/// extent.
pub fn parse_bytes(buf: &Vec<u8>, pos: usize) -> (r: Result<(Vec<u8>, usize), Error>)
    requires
        pos <= buf@.len(),
    ensures
        r matches Ok(p) ==> pos < p.1 <= buf@.len() && buf@.subrange(pos as int, p.1 as int)
            == spec_encode_bytes(p.0@),
        r matches Err(e) ==> e == Error::Decode,
        forall|s: Seq<u8>, end: int| bytes_encoding_at(buf@, pos as int, end, s) ==> (r matches
            Ok(p) && p.1 == end && p.0@ == s),
{
    let blen = buf.len();
    let (len64, p) = match parse_uint(buf, pos) {
        Ok(x) => x,
        Err(e) => {
            proof {
                assert forall|s: Seq<u8>, end: int| !bytes_encoding_at(
                    buf@,
                    pos as int,
                    end,
                    s,
                ) by {
                    if bytes_encoding_at(buf@, pos as int, end, s) {
                        lemma_bytes_encoding_parts(buf@, pos as int, end, s);
                    }
                }
            }
            return Err(e);
        },
    };
    if p >= buf.len() || buf[p] != 58 {
        proof {
            assert forall|s: Seq<u8>, end: int| !bytes_encoding_at(buf@, pos as int, end, s) by {
                if bytes_encoding_at(buf@, pos as int, end, s) {
                    lemma_bytes_encoding_parts(buf@, pos as int, end, s);
                }
            }
        }
        return Err(Error::Decode);
    }
    let start = p + 1;
    if len64 > (buf.len() - start) as u64 {
        proof {
            assert forall|s: Seq<u8>, end: int| !bytes_encoding_at(buf@, pos as int, end, s) by {
                if bytes_encoding_at(buf@, pos as int, end, s) {
                    lemma_bytes_encoding_parts(buf@, pos as int, end, s);
                }
            }
        }
        return Err(Error::Decode);
    }
    let len = len64 as usize;
    let out = copy_range(buf, start, start + len);
    let end = start + len;
    proof {
        assert(buf@.subrange(pos as int, end as int) =~= buf@.subrange(pos as int, p as int)
            + seq![58u8] + buf@.subrange(start as int, end as int));
        assert forall|s: Seq<u8>, end2: int| bytes_encoding_at(
            buf@,
            pos as int,
            end2,
            s,
        ) implies end2 == end && out@ == s by {
            lemma_bytes_encoding_parts(buf@, pos as int, end2, s);
        }
    }
    Ok((out, end))
}

/// The pieces of an integer encoding at `buf[pos..end]`: the marker `i`,
/// an optional minus sign, a maximal canonical digit run for the
/// magnitude, and the terminator `e`.
pub proof fn lemma_int_encoding_parts(buf: Seq<u8>, pos: int, end: int, n: i64)
    requires
        encoding_at(buf, pos, end, Bvalue::Int(n)),
    ensures
        ({
            let mag: nat = if n < 0 {
                (-(n as int)) as nat
            } else {
                n as nat
            };
            let ds: int = if n < 0 {
                pos + 2
            } else {
                pos + 1
            };
            &&& buf[pos] == 105
            &&& pos + 1 < end
            &&& (n < 0 ==> buf[pos + 1] == 45)
            &&& (n >= 0 ==> is_digit_byte(buf[pos + 1]))
            &&& mag <= 9223372036854775808
            &&& (n < 0 ==> mag >= 1)
            &&& end == ds + spec_dec_digits(mag).len() + 1
            &&& digit_run_at(buf, ds, end - 1, mag as u64)
            &&& buf[end - 1] == 101
        }),
{
    let mag: nat = if n < 0 {
        (-(n as int)) as nat
    } else {
        n as nat
    };
    let ds: int = if n < 0 {
        pos + 2
    } else {
        pos + 1
    };
    lemma_dec_digits_len(mag);
    lemma_dec_digits_are_digits(mag);
    let enc = spec_encode(Bvalue::Int(n));
    assert(enc == seq![105u8] + spec_encode_int(n as int) + seq![101u8]);
    if n < 0 {
        assert(spec_encode_int(n as int) == seq![45u8] + spec_dec_digits(mag));
    } else {
        assert(spec_encode_int(n as int) == spec_dec_digits(mag));
    }
    assert(enc.len() == (ds - pos) + spec_dec_digits(mag).len() + 1);
    assert(buf.subrange(pos, end).len() == end - pos);
    assert(buf[pos] == enc[0]);
    assert(buf[pos + 1] == enc[1]);
    assert(buf[end - 1] == enc[end - pos - 1]);
    assert forall|i: int| 0 <= i < spec_dec_digits(mag).len() implies buf[ds + i]
        == spec_dec_digits(mag)[i] by {
        assert(buf[ds + i] == buf.subrange(pos, end)[ds - pos + i]);
        assert(enc[ds - pos + i] == spec_dec_digits(mag)[i]);
    }
    assert(buf.subrange(ds, end - 1) =~= spec_dec_digits(mag));
    assert((mag as u64) as nat == mag);
    assert(!is_digit_byte(buf[end - 1]));
}

/// Parses an integer `i<digits>e` at `pos` (the byte at `pos` is `i`).
/// Every canonical integer encoding at `pos` is accepted, with its exact
/// value and extent.
fn parse_int(buf: &Vec<u8>, pos: usize) -> (r: Result<(i64, usize), Error>)
    requires
        pos < buf@.len(),
        buf@[pos as int] == 105,
    ensures
        r matches Ok(p) ==> pos < p.1 <= buf@.len() && buf@.subrange(pos as int, p.1 as int)
            == spec_encode(Bvalue::Int(p.0)),
        r matches Err(e) ==> e == Error::Decode,
        forall|n: i64, end: int| encoding_at(buf@, pos as int, end, Bvalue::Int(n)) ==> (r matches
            Ok(p) && p.1 == end && p.0 == n),
{
    let blen = buf.len();
    assert(pos < blen);
    let mut p = pos + 1;
    let mut neg = false;
    if p < buf.len() && buf[p] == 45 {
        neg = true;
        p += 1;
    }
    let ghost digits_start = p as int;
    let (m, p2) = match parse_uint(buf, p) {
        Ok(x) => x,
        Err(e) => {
            proof {
                assert forall|n: i64, end: int| !encoding_at(
                    buf@,
                    pos as int,
                    end,
                    Bvalue::Int(n),
                ) by {
                    if encoding_at(buf@, pos as int, end, Bvalue::Int(n)) {
                        lemma_int_encoding_parts(buf@, pos as int, end, n);
                        let mag: nat = if n < 0 {
                            (-(n as int)) as nat
                        } else {
                            n as nat
                        };
                        assert(digit_run_at(buf@, p as int, end - 1, mag as u64));
                    }
                }
            }
            return Err(e);
        },
    };
    if p2 >= buf.len() || buf[p2] != 101 {
        proof {
            assert forall|n: i64, end: int| !encoding_at(
                buf@,
                pos as int,
                end,
                Bvalue::Int(n),
            ) by {
                if encoding_at(buf@, pos as int, end, Bvalue::Int(n)) {
                    lemma_int_encoding_parts(buf@, pos as int, end, n);
                    let mag: nat = if n < 0 {
                        (-(n as int)) as nat
                    } else {
                        n as nat
                    };
                    assert(digit_run_at(buf@, p as int, end - 1, mag as u64));
                    assert(p2 == end - 1 && m as nat == mag);
                    assert(false);
                }
            }
        }
        return Err(Error::Decode);
    }
    proof {
        assert forall|n: i64, end: int| encoding_at(
            buf@,
            pos as int,
            end,
            Bvalue::Int(n),
        ) implies (n < 0 <==> neg) && p2 == end - 1 && m as nat == (if n < 0 {
            (-(n as int)) as nat
        } else {
            n as nat
        }) by {
            lemma_int_encoding_parts(buf@, pos as int, end, n);
            let mag: nat = if n < 0 {
                (-(n as int)) as nat
            } else {
                n as nat
            };
            assert(digit_run_at(buf@, p as int, end - 1, mag as u64));
        }
    }
    let value: i64;
    if neg {
        if m == 0 {
            // `i-0e` is not canonical.
            proof {
                assert forall|n: i64, end: int| !encoding_at(
                    buf@,
                    pos as int,
                    end,
                    Bvalue::Int(n),
                ) by {
                    if encoding_at(buf@, pos as int, end, Bvalue::Int(n)) {
                        assert(false);
                    }
                }
            }
            return Err(Error::Decode);
        }
        if m > 9223372036854775808 {
            proof {
                assert forall|n: i64, end: int| !encoding_at(
                    buf@,
                    pos as int,
                    end,
                    Bvalue::Int(n),
                ) by {
                    if encoding_at(buf@, pos as int, end, Bvalue::Int(n)) {
                        assert(false);
                    }
                }
            }
            return Err(Error::Decode);
        }
        if m == 9223372036854775808 {
            value = i64::MIN;
        } else {
            value = -(m as i64);
        }
    } else {
        if m > 9223372036854775807 {
            proof {
                assert forall|n: i64, end: int| !encoding_at(
                    buf@,
                    pos as int,
                    end,
                    Bvalue::Int(n),
                ) by {
                    if encoding_at(buf@, pos as int, end, Bvalue::Int(n)) {
                        assert(false);
                    }
                }
            }
            return Err(Error::Decode);
        }
        value = m as i64;
    }
    let end = p2 + 1;
    proof {
        assert forall|n: i64, end2: int| encoding_at(
            buf@,
            pos as int,
            end2,
            Bvalue::Int(n),
        ) implies end2 == end && value == n by {
            assert(p2 == end2 - 1);
        }
    }
    proof {
        assert((-(value as int)) as nat == m as nat || (value as int) as nat == m as nat);
        if neg {
            assert(buf@.subrange(pos as int, end as int) =~= seq![105u8] + seq![45u8]
                + buf@.subrange(digits_start, p2 as int) + seq![101u8]);
            assert(spec_encode(Bvalue::Int(value)) =~= seq![105u8] + seq![45u8]
                + spec_dec_digits(m as nat) + seq![101u8]);
        } else {
            assert(buf@.subrange(pos as int, end as int) =~= seq![105u8] + buf@.subrange(
                digits_start,
                p2 as int,
            ) + seq![101u8]);
        }
    }
    Ok((value, end))
}

/// A list with the element sequence `s` is encoded at `buf[pos..end]`.
pub open spec fn list_encoding_at(buf: Seq<u8>, pos: int, end: int, s: Seq<Bvalue>) -> bool {
    &&& 0 <= pos < end <= buf.len()
    &&& buf[pos] == 108
    &&& buf[end - 1] == 101
    &&& buf.subrange(pos + 1, end - 1) == spec_encode_seq(s)
}

/// A middle piece of a decomposed byte range stands at its own offsets.
pub(crate) proof fn lemma_subrange_chunk(buf: Seq<u8>, a: int, b: int, pre: Seq<u8>, mid: Seq<u8>, post: Seq<
    u8,
>)
    requires
        0 <= a <= b <= buf.len(),
        buf.subrange(a, b) == pre + mid + post,
    ensures
        a + pre.len() + mid.len() <= b,
        buf.subrange(a + pre.len(), a + pre.len() + mid.len()) == mid,
{
    assert(buf.subrange(a, b).len() == b - a);
    assert forall|i: int| 0 <= i < mid.len() implies buf[a + pre.len() + i] == mid[i] by {
        assert(buf[a + pre.len() + i] == buf.subrange(a, b)[pre.len() + i]);
        assert((pre + mid + post)[pre.len() + i] == mid[i]);
    }
    assert(buf.subrange(a + pre.len(), a + pre.len() + mid.len()) =~= mid);
}

/// An encoded list value decomposes into its framed body.
proof fn lemma_as_list_encoding(buf: Seq<u8>, pos: int, end: int, v: Bvalue)
    requires
        encoding_at(buf, pos, end, v),
        v is List,
    ensures
        list_encoding_at(buf, pos, end, v->List_0@),
{
    let body = spec_encode_seq(v->List_0@);
    let enc = spec_encode(v);
    assert(enc == seq![108u8] + body + seq![101u8]);
    assert(buf.subrange(pos, end).len() == end - pos);
    assert(buf[pos] == enc[0]);
    assert(buf[end - 1] == enc[end - pos - 1]);
    lemma_subrange_chunk(buf, pos, end, seq![108u8], body, seq![101u8]);
}

/// An encoded dictionary value decomposes into its framed entry body.
proof fn lemma_as_entries_encoding(buf: Seq<u8>, pos: int, end: int, v: Bvalue)
    requires
        encoding_at(buf, pos, end, v),
        v is Dict,
    ensures
        entries_encoding_at(buf, pos, end, v->Dict_0@),
{
    let body = spec_encode_entries(v->Dict_0@);
    let enc = spec_encode(v);
    assert(enc == seq![100u8] + body + seq![101u8]);
    assert(buf.subrange(pos, end).len() == end - pos);
    assert(buf[pos] == enc[0]);
    assert(buf[end - 1] == enc[end - pos - 1]);
    lemma_subrange_chunk(buf, pos, end, seq![100u8], body, seq![101u8]);
}

/// Parses one bencoded value at `pos`.  On success the consumed byte range
/// `buf[pos..end]` is exactly the canonical encoding of the returned value,
/// and every canonical encoding at `pos` is accepted, with its exact
/// extent and a structurally matching value.
#[verifier::loop_isolation(false)]
#[verifier::rlimit(100)]
pub fn parse_value(buf: &Vec<u8>, pos: usize) -> (r: Result<(Bvalue, usize), Error>)
    requires
        pos <= buf@.len(),
    ensures
        r matches Ok(p) ==> pos < p.1 <= buf@.len() && buf@.subrange(pos as int, p.1 as int)
            == spec_encode(p.0),
        r matches Err(e) ==> e == Error::Decode,
        forall|v: Bvalue, end: int| encoding_at(buf@, pos as int, end, v) ==> (r matches Ok(p)
            && p.1 == end && value_matches(p.0, v)),
        forall|s: Seq<DictEntry>, end: int| entries_encoding_at(buf@, pos as int, end, s) ==> (
        r matches Ok(p) && p.1 == end && p.0 is Dict && entries_match(p.0->Dict_0@, s)),
    decreases buf@.len() - pos,
{
    if pos >= buf.len() {
        proof {
            assert forall|v: Bvalue, end: int| !encoding_at(buf@, pos as int, end, v) by {
                if encoding_at(buf@, pos as int, end, v) {
                    lemma_encode_first(v);
                    assert(buf@.subrange(pos as int, end).len() >= 2);
                    assert(buf@[pos as int] == buf@.subrange(pos as int, end)[0]);
                }
            }
        }
        return Err(Error::Decode);
    }
    let c = buf[pos];
    if c == 105 {
        // An integer.
        proof {
            assert forall|v: Bvalue, end: int| encoding_at(buf@, pos as int, end, v) implies v
                is Int && encoding_at(buf@, pos as int, end, Bvalue::Int(v->Int_0)) by {
                lemma_encode_first(v);
                assert(buf@.subrange(pos as int, end).len() >= 2);
                assert(buf@[pos as int] == buf@.subrange(pos as int, end)[0]);
            }
        }
        match parse_int(buf, pos) {
            Ok((n, end)) => {
                proof {
                    assert forall|v: Bvalue, end2: int| encoding_at(
                        buf@,
                        pos as int,
                        end2,
                        v,
                    ) implies end2 == end && value_matches(Bvalue::Int(n), v) by {
                        assert(encoding_at(buf@, pos as int, end2, Bvalue::Int(v->Int_0)));
                    }
                }
                Ok((Bvalue::Int(n), end))
            },
            Err(e) => {
                proof {
                    assert forall|v: Bvalue, end2: int| !encoding_at(
                        buf@,
                        pos as int,
                        end2,
                        v,
                    ) by {
                        if encoding_at(buf@, pos as int, end2, v) {
                            assert(encoding_at(buf@, pos as int, end2, Bvalue::Int(v->Int_0)));
                            assert(false);
                        }
                    }
                }
                Err(e)
            },
        }
    } else if c >= 48 && c <= 57 {
        // A byte string.
        proof {
            assert forall|v: Bvalue, end: int| encoding_at(buf@, pos as int, end, v) implies v
                is Bytes && bytes_encoding_at(buf@, pos as int, end, v->Bytes_0@) by {
                lemma_encode_first(v);
                assert(buf@.subrange(pos as int, end).len() >= 2);
                assert(buf@[pos as int] == buf@.subrange(pos as int, end)[0]);
            }
        }
        match parse_bytes(buf, pos) {
            Ok((b, end)) => {
                proof {
                    assert forall|v: Bvalue, end2: int| encoding_at(
                        buf@,
                        pos as int,
                        end2,
                        v,
                    ) implies end2 == end && value_matches(Bvalue::Bytes(b), v) by {
                        assert(bytes_encoding_at(buf@, pos as int, end2, v->Bytes_0@));
                    }
                }
                Ok((Bvalue::Bytes(b), end))
            },
            Err(e) => {
                proof {
                    assert forall|v: Bvalue, end2: int| !encoding_at(
                        buf@,
                        pos as int,
                        end2,
                        v,
                    ) by {
                        if encoding_at(buf@, pos as int, end2, v) {
                            assert(bytes_encoding_at(buf@, pos as int, end2, v->Bytes_0@));
                            assert(false);
                        }
                    }
                }
                Err(e)
            },
        }
    } else if c == 108 {
        // A list.
        let mut items: Vec<Bvalue> = Vec::new();
        let mut p = pos + 1;
        proof {
            assert forall|s: Seq<Bvalue>, end2: int| list_encoding_at(
                buf@,
                pos as int,
                end2,
                s,
            ) implies items@.len() <= s.len() && p == pos + 1 + spec_encode_seq(
                s.take(items@.len() as int),
            ).len() by {
                assert(s.take(0) =~= Seq::<Bvalue>::empty());
            }
        }
        loop
            invariant
                pos < p <= buf@.len(),
                pos < buf@.len(),
                buf@[pos as int] == 108,
                buf@.subrange(pos + 1, p as int) == spec_encode_seq(items@),
                forall|s: Seq<Bvalue>, end2: int| #[trigger] list_encoding_at(
                    buf@,
                    pos as int,
                    end2,
                    s,
                ) ==> items@.len() <= s.len() && p == pos + 1 + spec_encode_seq(
                    s.take(items@.len() as int),
                ).len() && (forall|j: int| 0 <= j < items@.len() ==> value_matches(
                    #[trigger] items@[j],
                    s[j],
                )),
            decreases buf@.len() - p,
        {
            proof {
                assert forall|s: Seq<Bvalue>, end2: int| list_encoding_at(
                    buf@,
                    pos as int,
                    end2,
                    s,
                ) && items@.len() < s.len() implies {
                    let k = items@.len() as int;
                    let q2 = p + spec_encode(s[k]).len();
                    &&& q2 <= end2 - 1
                    &&& encoding_at(buf@, p as int, q2, s[k])
                    &&& buf@[p as int] == spec_encode(s[k])[0]
                } by {
                    let k = items@.len() as int;
                    lemma_encode_seq_split(s, k);
                    lemma_encode_seq_skip_step(s, k);
                    assert(buf@.subrange(pos + 1, end2 - 1) =~= spec_encode_seq(s.take(k))
                        + spec_encode(s[k]) + spec_encode_seq(s.skip(k + 1)));
                    lemma_subrange_chunk(
                        buf@,
                        pos + 1,
                        end2 - 1,
                        spec_encode_seq(s.take(k)),
                        spec_encode(s[k]),
                        spec_encode_seq(s.skip(k + 1)),
                    );
                    assert(buf@[p as int] == buf@.subrange(
                        p as int,
                        p + spec_encode(s[k]).len(),
                    )[0]);
                    lemma_encode_first(s[k]);
                }
            }
            if p >= buf.len() {
                proof {
                    assert forall|s: Seq<Bvalue>, end2: int| !list_encoding_at(
                        buf@,
                        pos as int,
                        end2,
                        s,
                    ) by {
                        if list_encoding_at(buf@, pos as int, end2, s) {
                            if items@.len() < s.len() {
                                lemma_encode_first(s[items@.len() as int]);
                            } else {
                                assert(s.take(items@.len() as int) =~= s);
                            }
                        }
                    }
                    assert forall|v: Bvalue, end: int| !encoding_at(buf@, pos as int, end, v) by {
                        if encoding_at(buf@, pos as int, end, v) {
                            lemma_encode_first(v);
                            assert(buf@.subrange(pos as int, end).len() >= 2);
                            assert(buf@[pos as int] == buf@.subrange(pos as int, end)[0]);
                            lemma_as_list_encoding(buf@, pos as int, end, v);
                        }
                    }
                }
                return Err(Error::Decode);
            }
            if buf[p] == 101 {
                let end = p + 1;
                proof {
                    assert(buf@.subrange(pos as int, end as int) =~= seq![108u8] + buf@.subrange(
                        pos + 1,
                        p as int,
                    ) + seq![101u8]);
                    assert forall|s: Seq<Bvalue>, end2: int| list_encoding_at(
                        buf@,
                        pos as int,
                        end2,
                        s,
                    ) implies end2 == end && items@.len() == s.len() by {
                        if items@.len() < s.len() {
                            lemma_encode_first(s[items@.len() as int]);
                        }
                        assert(s.take(items@.len() as int) =~= s);
                    }
                    assert forall|v: Bvalue, end2: int| encoding_at(
                        buf@,
                        pos as int,
                        end2,
                        v,
                    ) implies end2 == end && value_matches(Bvalue::List(items), v) by {
                        lemma_encode_first(v);
                        assert(buf@.subrange(pos as int, end2).len() >= 2);
                        assert(buf@[pos as int] == buf@.subrange(pos as int, end2)[0]);
                        lemma_as_list_encoding(buf@, pos as int, end2, v);
                    }
                }
                return Ok((Bvalue::List(items), end));
            }
            let (v, p2) = match parse_value(buf, p) {
                Ok(x) => x,
                Err(e) => {
                    proof {
                        assert forall|s: Seq<Bvalue>, end2: int| !list_encoding_at(
                            buf@,
                            pos as int,
                            end2,
                            s,
                        ) by {
                            if list_encoding_at(buf@, pos as int, end2, s) {
                                if items@.len() == s.len() {
                                    assert(s.take(items@.len() as int) =~= s);
                                    assert(false);
                                }
                            }
                        }
                        assert forall|v2: Bvalue, end2: int| !encoding_at(
                            buf@,
                            pos as int,
                            end2,
                            v2,
                        ) by {
                            if encoding_at(buf@, pos as int, end2, v2) {
                                lemma_encode_first(v2);
                                assert(buf@.subrange(pos as int, end2).len() >= 2);
                                assert(buf@[pos as int] == buf@.subrange(pos as int, end2)[0]);
                                lemma_as_list_encoding(buf@, pos as int, end2, v2);
                            }
                        }
                    }
                    return Err(e);
                },
            };
            proof {
                lemma_encode_seq_push(items@, v);
                assert(buf@.subrange(pos + 1, p2 as int) =~= buf@.subrange(pos + 1, p as int)
                    + buf@.subrange(p as int, p2 as int));
                assert forall|s: Seq<Bvalue>, end2: int| list_encoding_at(
                    buf@,
                    pos as int,
                    end2,
                    s,
                ) implies items@.len() < s.len() && p2 == p + spec_encode(
                    s[items@.len() as int],
                ).len() && value_matches(v, s[items@.len() as int]) && spec_encode_seq(
                    s.take(items@.len() as int + 1),
                ).len() == spec_encode_seq(s.take(items@.len() as int)).len() + spec_encode(
                    s[items@.len() as int],
                ).len() by {
                    let k = items@.len() as int;
                    if k == s.len() {
                        assert(s.take(k) =~= s);
                        assert(false);
                    }
                    assert(s.take(k + 1) =~= s.take(k).push(s[k]));
                    lemma_encode_seq_push(s.take(k), s[k]);
                }
            }
            items.push(v);
            p = p2;
        }
    } else if c == 100 {
        // A dictionary.
        let mut entries: Vec<DictEntry> = Vec::new();
        let mut p = pos + 1;
        proof {
            assert forall|s: Seq<DictEntry>, end2: int| entries_encoding_at(
                buf@,
                pos as int,
                end2,
                s,
            ) implies entries@.len() <= s.len() && p == pos + 1 + spec_encode_entries(
                s.take(entries@.len() as int),
            ).len() by {
                assert(s.take(0) =~= Seq::<DictEntry>::empty());
            }
        }
        loop
            invariant
                pos < p <= buf@.len(),
                pos < buf@.len(),
                buf@[pos as int] == 100,
                buf@.subrange(pos + 1, p as int) == spec_encode_entries(entries@),
                forall|s: Seq<DictEntry>, end2: int| #[trigger] entries_encoding_at(
                    buf@,
                    pos as int,
                    end2,
                    s,
                ) ==> entries@.len() <= s.len() && p == pos + 1 + spec_encode_entries(
                    s.take(entries@.len() as int),
                ).len() && (forall|j: int| 0 <= j < entries@.len() ==> entry_matches(
                    #[trigger] entries@[j],
                    s[j],
                )),
            decreases buf@.len() - p,
        {
            proof {
                assert forall|s: Seq<DictEntry>, end2: int| entries_encoding_at(
                    buf@,
                    pos as int,
                    end2,
                    s,
                ) && entries@.len() < s.len() implies {
                    let k = entries@.len() as int;
                    let pk2 = p + spec_encode_bytes(s[k].key@).len();
                    let q2 = pk2 + spec_encode(s[k].value).len();
                    &&& q2 <= end2 - 1
                    &&& bytes_encoding_at(buf@, p as int, pk2, s[k].key@)
                    &&& encoding_at(buf@, pk2, q2, s[k].value)
                    &&& is_digit_byte(buf@[p as int])
                } by {
                    let k = entries@.len() as int;
                    lemma_encode_entries_split(s, k);
                    lemma_encode_entries_skip_step(s, k);
                    assert(buf@.subrange(pos + 1, end2 - 1) =~= spec_encode_entries(s.take(k))
                        + spec_encode_bytes(s[k].key@) + (spec_encode(s[k].value)
                        + spec_encode_entries(s.skip(k + 1))));
                    lemma_subrange_chunk(
                        buf@,
                        pos + 1,
                        end2 - 1,
                        spec_encode_entries(s.take(k)),
                        spec_encode_bytes(s[k].key@),
                        spec_encode(s[k].value) + spec_encode_entries(s.skip(k + 1)),
                    );
                    assert(buf@.subrange(pos + 1, end2 - 1) =~= (spec_encode_entries(s.take(k))
                        + spec_encode_bytes(s[k].key@)) + spec_encode(s[k].value)
                        + spec_encode_entries(s.skip(k + 1)));
                    lemma_subrange_chunk(
                        buf@,
                        pos + 1,
                        end2 - 1,
                        spec_encode_entries(s.take(k)) + spec_encode_bytes(s[k].key@),
                        spec_encode(s[k].value),
                        spec_encode_entries(s.skip(k + 1)),
                    );
                    let pk2 = p + spec_encode_bytes(s[k].key@).len();
                    assert(buf@[p as int] == buf@.subrange(p as int, pk2)[0]);
                    lemma_dec_digits_len(s[k].key@.len());
                    lemma_dec_digits_are_digits(s[k].key@.len());
                    assert(spec_encode_bytes(s[k].key@)[0] == spec_dec_digits(s[k].key@.len())[0]);
                }
            }
            if p >= buf.len() {
                proof {
                    assert forall|s: Seq<DictEntry>, end2: int| !entries_encoding_at(
                        buf@,
                        pos as int,
                        end2,
                        s,
                    ) by {
                        if entries_encoding_at(buf@, pos as int, end2, s) {
                            if entries@.len() >= s.len() {
                                assert(s.take(entries@.len() as int) =~= s);
                            }
                        }
                    }
                    assert forall|v: Bvalue, end: int| !encoding_at(buf@, pos as int, end, v) by {
                        if encoding_at(buf@, pos as int, end, v) {
                            lemma_encode_first(v);
                            assert(buf@.subrange(pos as int, end).len() >= 2);
                            assert(buf@[pos as int] == buf@.subrange(pos as int, end)[0]);
                            lemma_as_entries_encoding(buf@, pos as int, end, v);
                        }
                    }
                }
                return Err(Error::Decode);
            }
            if buf[p] == 101 {
                let end = p + 1;
                proof {
                    assert(buf@.subrange(pos as int, end as int) =~= seq![100u8] + buf@.subrange(
                        pos + 1,
                        p as int,
                    ) + seq![101u8]);
                    assert forall|s: Seq<DictEntry>, end2: int| entries_encoding_at(
                        buf@,
                        pos as int,
                        end2,
                        s,
                    ) implies end2 == end && entries_match(entries@, s) by {
                        assert(s.take(entries@.len() as int) =~= s);
                    }
                    assert forall|v: Bvalue, end2: int| encoding_at(
                        buf@,
                        pos as int,
                        end2,
                        v,
                    ) implies end2 == end && value_matches(Bvalue::Dict(entries), v) by {
                        lemma_encode_first(v);
                        assert(buf@.subrange(pos as int, end2).len() >= 2);
                        assert(buf@[pos as int] == buf@.subrange(pos as int, end2)[0]);
                        lemma_as_entries_encoding(buf@, pos as int, end2, v);
                    }
                }
                return Ok((Bvalue::Dict(entries), end));
            }
            let (key, pk) = match parse_bytes(buf, p) {
                Ok(x) => x,
                Err(e) => {
                    proof {
                        assert forall|s: Seq<DictEntry>, end2: int| !entries_encoding_at(
                            buf@,
                            pos as int,
                            end2,
                            s,
                        ) by {
                            if entries_encoding_at(buf@, pos as int, end2, s) {
                                if entries@.len() == s.len() {
                                    assert(s.take(entries@.len() as int) =~= s);
                                    assert(false);
                                }
                            }
                        }
                        assert forall|v2: Bvalue, end2: int| !encoding_at(
                            buf@,
                            pos as int,
                            end2,
                            v2,
                        ) by {
                            if encoding_at(buf@, pos as int, end2, v2) {
                                lemma_encode_first(v2);
                                assert(buf@.subrange(pos as int, end2).len() >= 2);
                                assert(buf@[pos as int] == buf@.subrange(pos as int, end2)[0]);
                                lemma_as_entries_encoding(buf@, pos as int, end2, v2);
                            }
                        }
                    }
                    return Err(e);
                },
            };
            let (v, p2) = match parse_value(buf, pk) {
                Ok(x) => x,
                Err(e) => {
                    proof {
                        assert forall|s: Seq<DictEntry>, end2: int| !entries_encoding_at(
                            buf@,
                            pos as int,
                            end2,
                            s,
                        ) by {
                            if entries_encoding_at(buf@, pos as int, end2, s) {
                                if entries@.len() == s.len() {
                                    assert(s.take(entries@.len() as int) =~= s);
                                    assert(false);
                                }
                            }
                        }
                        assert forall|v2: Bvalue, end2: int| !encoding_at(
                            buf@,
                            pos as int,
                            end2,
                            v2,
                        ) by {
                            if encoding_at(buf@, pos as int, end2, v2) {
                                lemma_encode_first(v2);
                                assert(buf@.subrange(pos as int, end2).len() >= 2);
                                assert(buf@[pos as int] == buf@.subrange(pos as int, end2)[0]);
                                lemma_as_entries_encoding(buf@, pos as int, end2, v2);
                            }
                        }
                    }
                    return Err(e);
                },
            };
            let entry = DictEntry { key, value: v };
            proof {
                lemma_encode_entries_push(entries@, entry);
                assert(buf@.subrange(pos + 1, p2 as int) =~= buf@.subrange(pos + 1, p as int)
                    + buf@.subrange(p as int, pk as int) + buf@.subrange(pk as int, p2 as int));
                assert forall|s: Seq<DictEntry>, end2: int| entries_encoding_at(
                    buf@,
                    pos as int,
                    end2,
                    s,
                ) implies entries@.len() < s.len() && p2 == p + spec_encode_bytes(
                    s[entries@.len() as int].key@,
                ).len() + spec_encode(s[entries@.len() as int].value).len() && entry_matches(
                    entry,
                    s[entries@.len() as int],
                ) && spec_encode_entries(s.take(entries@.len() as int + 1)).len() == spec_encode_entries(
                    s.take(entries@.len() as int),
                ).len() + spec_encode_bytes(s[entries@.len() as int].key@).len() + spec_encode(
                    s[entries@.len() as int].value,
                ).len() by {
                    let k = entries@.len() as int;
                    if k == s.len() {
                        assert(s.take(k) =~= s);
                        assert(false);
                    }
                    assert(s.take(k + 1) =~= s.take(k).push(s[k]));
                    lemma_encode_entries_push(s.take(k), s[k]);
                }
            }
            entries.push(entry);
            p = p2;
        }
    } else {
        proof {
            assert forall|v: Bvalue, end: int| !encoding_at(buf@, pos as int, end, v) by {
                if encoding_at(buf@, pos as int, end, v) {
                    lemma_encode_first(v);
                    assert(buf@.subrange(pos as int, end).len() >= 2);
                    assert(buf@[pos as int] == buf@.subrange(pos as int, end)[0]);
                }
            }
        }
        Err(Error::Decode)
    }
}

/// Decodes a whole buffer as one bencoded value; trailing bytes are a
/// decode error.  On success the buffer is exactly the canonical encoding
/// of the returned value, and every buffer that is the canonical encoding
/// of some value decodes successfully: together with `encode_value`, the
/// round-trip law.
pub fn decode(buf: &Vec<u8>) -> (r: Result<Bvalue, Error>)
    ensures
        r matches Ok(v) ==> buf@ == spec_encode(v),
        r matches Err(e) ==> e == Error::Decode,
        (exists|v: Bvalue| buf@ == spec_encode(v)) ==> r is Ok,
        forall|s: Seq<DictEntry>| (buf@.len() >= 2 && buf@[0] == 100 && buf@[buf@.len() - 1] == 101
            && buf@.subrange(1, buf@.len() - 1) == spec_encode_entries(s)) ==> (r matches Ok(v) && v
            is Dict && entries_match(v->Dict_0@, s)),
{
    let blen = buf.len();
    proof {
        assert(buf@.subrange(0, blen as int) =~= buf@);
        if exists|v0: Bvalue| buf@ == spec_encode(v0) {
            let v0 = choose|v0: Bvalue| buf@ == spec_encode(v0);
            assert(encoding_at(buf@, 0, blen as int, v0));
        }
        assert forall|s: Seq<DictEntry>| (buf@.len() >= 2 && buf@[0] == 100
            && buf@[buf@.len() - 1] == 101 && buf@.subrange(1, buf@.len() - 1)
            == spec_encode_entries(s)) implies entries_encoding_at(buf@, 0, blen as int, s) by {}
    }
    let (v, end) = match parse_value(buf, 0) {
        Ok(x) => x,
        Err(e) => {
            return Err(e);
        },
    };
    if end != blen {
        return Err(Error::Decode);
    }
    Ok(v)
}

/// Re-encodes a value into its canonical byte encoding: the inverse of the
/// decoder, completing the round-trip law.
#[verifier::loop_isolation(false)]
pub fn encode_value(v: &Bvalue) -> (r: Vec<u8>)
    ensures
        r@ == spec_encode(*v),
    decreases *v,
{
    match v {
        Bvalue::Int(n) => {
            let mut out: Vec<u8> = Vec::new();
            out.push(105);
            let m: u64;
            if *n < 0 {
                out.push(45);
                if *n == i64::MIN {
                    m = 9223372036854775808;
                } else {
                    m = (-(*n)) as u64;
                }
            } else {
                m = *n as u64;
            }
            let mut digits = crate::bytes::dec_digits(m);
            out.append(&mut digits);
            out.push(101);
            assert(out@ =~= spec_encode(Bvalue::Int(*n)));
            out
        },
        Bvalue::Bytes(b) => {
            let mut out: Vec<u8> = Vec::new();
            let mut digits = crate::bytes::dec_digits(b.len() as u64);
            out.append(&mut digits);
            out.push(58);
            let mut body = crate::bytes::copy_bytes(b);
            out.append(&mut body);
            assert(out@ =~= spec_encode(Bvalue::Bytes(*b)));
            out
        },
        Bvalue::List(items) => {
            let mut out: Vec<u8> = Vec::new();
            out.push(108);
            let n = items.len();
            let mut i: usize = 0;
            while i < n
                invariant
                    n == items@.len(),
                    i <= n,
                    out@ == seq![108u8] + spec_encode_seq(items@.subrange(0, i as int)),
                decreases n - i,
            {
                proof {
                    assert(items@.subrange(0, i + 1) =~= items@.subrange(0, i as int).push(
                        items@[i as int],
                    ));
                    lemma_encode_seq_push(items@.subrange(0, i as int), items@[i as int]);
                }
                let mut piece = encode_value(&items[i]);
                out.append(&mut piece);
                i += 1;
            }
            out.push(101);
            proof {
                assert(items@.subrange(0, n as int) =~= items@);
            }
            assert(out@ =~= spec_encode(Bvalue::List(*items)));
            out
        },
        Bvalue::Dict(entries) => {
            let mut out: Vec<u8> = Vec::new();
            out.push(100);
            let n = entries.len();
            let mut i: usize = 0;
            while i < n
                invariant
                    n == entries@.len(),
                    i <= n,
                    out@ == seq![100u8] + spec_encode_entries(entries@.subrange(0, i as int)),
                decreases n - i,
            {
                proof {
                    assert(entries@.subrange(0, i + 1) =~= entries@.subrange(0, i as int).push(
                        entries@[i as int],
                    ));
                    lemma_encode_entries_push(entries@.subrange(0, i as int), entries@[i as int]);
                }
                let e = &entries[i];
                let mut klen = crate::bytes::dec_digits(e.key.len() as u64);
                out.append(&mut klen);
                out.push(58);
                let mut kbody = crate::bytes::copy_bytes(&e.key);
                out.append(&mut kbody);
                let mut piece = encode_value(&e.value);
                out.append(&mut piece);
                i += 1;
            }
            out.push(101);
            proof {
                assert(entries@.subrange(0, n as int) =~= entries@);
            }
            assert(out@ =~= spec_encode(Bvalue::Dict(*entries)));
            out
        },
    }
}

} // verus!
