//! Torrent metadata: the typed view of a bencoded torrent document.
//!
//! `parse_torrent` decodes the top-level dictionary, extracts every field of
//! the `Torrent` and `Info` structures, and records the raw bytes of the
//! `info` value exactly as they stand in the input, so that the info hash
//! can be taken over the published bytes and not over a re-encoding.

use vstd::prelude::*;

use crate::bencode::{bytes_encoding_at, encoding_at, entries_encoding_at, entries_match,
    entry_matches, is_digit_byte, lemma_encode_entries_skip_step, lemma_encode_entries_split,
    lemma_subrange_chunk, parse_bytes, parse_value, spec_encode, spec_encode_bytes,
    spec_encode_entries, value_matches, Bvalue, DictEntry};
use crate::bytes::{lemma_dec_digits_are_digits, lemma_dec_digits_len, spec_dec_digits};
use crate::bytes::{bytes_eq, copy_bytes, copy_range};
use crate::error::Error;

verus! {

/// One DHT bootstrap hint: a host and a port.  Unused by the pipeline,
/// carried for display.
#[derive(Debug)]
pub struct Node(pub Vec<u8>, pub i64);

/// One entry of a multi-file torrent.
#[derive(Debug)]
pub struct File {
    pub path: Vec<Vec<u8>>,
    pub length: i64,
    pub md5sum: Option<Vec<u8>>,
}

/// The content description of a torrent.
#[derive(Debug)]
pub struct Info {
    pub name: Vec<u8>,
    pub pieces: Vec<u8>,
    pub piece_length: i64,
    pub md5sum: Option<Vec<u8>>,
    pub length: Option<i64>,
    pub files: Option<Vec<File>>,
    pub private: Option<u8>,
    pub path: Option<Vec<Vec<u8>>>,
    pub root_hash: Option<Vec<u8>>,
}

/// A parsed torrent document.  `info_bytes` holds the raw serialized bytes
/// of the `info` value, taken verbatim from the input buffer.
#[derive(Debug)]
pub struct Torrent {
    pub info: Info,
    pub announce: Option<Vec<u8>>,
    pub nodes: Option<Vec<Node>>,
    pub encoding: Option<Vec<u8>>,
    pub httpseeds: Option<Vec<Vec<u8>>>,
    pub announce_list: Option<Vec<Vec<Vec<u8>>>>,
    pub creation_date: Option<i64>,
    pub comment: Option<Vec<u8>>,
    pub created_by: Option<Vec<u8>>,
    pub info_bytes: Vec<u8>,
}

impl Info {
    /// Structural well-formedness: a positive piece length, a piece table
    /// of whole 20-byte hashes, and exactly one of `length` / `files`
    /// present.
    pub open spec fn wf(self) -> bool {
        &&& self.piece_length > 0
        &&& self.pieces@.len() % 20 == 0
        &&& (self.length is Some) != (self.files is Some)
    }
}

pub open spec fn key_info() -> Seq<u8> {
    seq!['i' as u8, 'n' as u8, 'f' as u8, 'o' as u8]
}

pub open spec fn key_name() -> Seq<u8> {
    seq!['n' as u8, 'a' as u8, 'm' as u8, 'e' as u8]
}

pub open spec fn key_pieces() -> Seq<u8> {
    seq!['p' as u8, 'i' as u8, 'e' as u8, 'c' as u8, 'e' as u8, 's' as u8]
}

pub open spec fn key_piece_length() -> Seq<u8> {
    seq!['p' as u8, 'i' as u8, 'e' as u8, 'c' as u8, 'e' as u8, ' ' as u8, 'l' as u8, 'e' as u8,
        'n' as u8, 'g' as u8, 't' as u8, 'h' as u8]
}

pub open spec fn key_md5sum() -> Seq<u8> {
    seq!['m' as u8, 'd' as u8, '5' as u8, 's' as u8, 'u' as u8, 'm' as u8]
}

pub open spec fn key_length() -> Seq<u8> {
    seq!['l' as u8, 'e' as u8, 'n' as u8, 'g' as u8, 't' as u8, 'h' as u8]
}

pub open spec fn key_files() -> Seq<u8> {
    seq!['f' as u8, 'i' as u8, 'l' as u8, 'e' as u8, 's' as u8]
}

pub open spec fn key_private() -> Seq<u8> {
    seq!['p' as u8, 'r' as u8, 'i' as u8, 'v' as u8, 'a' as u8, 't' as u8, 'e' as u8]
}

pub open spec fn key_path() -> Seq<u8> {
    seq!['p' as u8, 'a' as u8, 't' as u8, 'h' as u8]
}

pub open spec fn key_root_hash() -> Seq<u8> {
    seq!['r' as u8, 'o' as u8, 'o' as u8, 't' as u8, ' ' as u8, 'h' as u8, 'a' as u8, 's' as u8,
        'h' as u8]
}

pub open spec fn key_announce() -> Seq<u8> {
    seq!['a' as u8, 'n' as u8, 'n' as u8, 'o' as u8, 'u' as u8, 'n' as u8, 'c' as u8, 'e' as u8]
}

pub open spec fn key_nodes() -> Seq<u8> {
    seq!['n' as u8, 'o' as u8, 'd' as u8, 'e' as u8, 's' as u8]
}

pub open spec fn key_encoding() -> Seq<u8> {
    seq!['e' as u8, 'n' as u8, 'c' as u8, 'o' as u8, 'd' as u8, 'i' as u8, 'n' as u8, 'g' as u8]
}

pub open spec fn key_httpseeds() -> Seq<u8> {
    seq!['h' as u8, 't' as u8, 't' as u8, 'p' as u8, 's' as u8, 'e' as u8, 'e' as u8, 'd' as u8,
        's' as u8]
}

pub open spec fn key_announce_list() -> Seq<u8> {
    seq!['a' as u8, 'n' as u8, 'n' as u8, 'o' as u8, 'u' as u8, 'n' as u8, 'c' as u8, 'e' as u8,
        '-' as u8, 'l' as u8, 'i' as u8, 's' as u8, 't' as u8]
}

pub open spec fn key_creation_date() -> Seq<u8> {
    seq!['c' as u8, 'r' as u8, 'e' as u8, 'a' as u8, 't' as u8, 'i' as u8, 'o' as u8, 'n' as u8,
        ' ' as u8, 'd' as u8, 'a' as u8, 't' as u8, 'e' as u8]
}

pub open spec fn key_comment() -> Seq<u8> {
    seq!['c' as u8, 'o' as u8, 'm' as u8, 'm' as u8, 'e' as u8, 'n' as u8, 't' as u8]
}

pub open spec fn key_created_by() -> Seq<u8> {
    seq!['c' as u8, 'r' as u8, 'e' as u8, 'a' as u8, 't' as u8, 'e' as u8, 'd' as u8, ' ' as u8,
        'b' as u8, 'y' as u8]
}

/// First-match lookup in a dictionary's entry sequence.
pub open spec fn spec_dict_get(s: Seq<DictEntry>, key: Seq<u8>) -> Option<Bvalue>
    decreases s,
{
    if s.len() == 0 {
        None
    } else if s.first().key@ == key {
        Some(s.first().value)
    } else {
        spec_dict_get(s.drop_first(), key)
    }
}

/// Looking up in a dictionary extended by one entry: an existing binding
/// wins; otherwise the new entry binds its own key.
pub proof fn lemma_dict_get_push(s: Seq<DictEntry>, e: DictEntry, key: Seq<u8>)
    ensures
        spec_dict_get(s.push(e), key) == if spec_dict_get(s, key) is Some {
            spec_dict_get(s, key)
        } else if e.key@ == key {
            Some(e.value)
        } else {
            None
        },
    decreases s,
{
    if s.len() == 0 {
        assert(s.push(e).drop_first() =~= s);
    } else {
        assert(s.push(e).drop_first() =~= s.drop_first().push(e));
        lemma_dict_get_push(s.drop_first(), e, key);
    }
}

/// Finds the first entry bound to `key`.
fn dict_find<'a>(entries: &'a Vec<DictEntry>, key: &Vec<u8>) -> (r: Option<&'a Bvalue>)
    ensures
        match r {
            Some(v) => spec_dict_get(entries@, key@) == Some(*v),
            None => spec_dict_get(entries@, key@) is None,
        },
{
    let n = entries.len();
    let mut i: usize = 0;
    proof {
        assert(entries@.skip(0) =~= entries@);
    }
    while i < n
        invariant
            n == entries@.len(),
            i <= n,
            spec_dict_get(entries@, key@) == spec_dict_get(entries@.skip(i as int), key@),
        decreases n - i,
    {
        proof {
            assert(entries@.skip(i as int).first() == entries@[i as int]);
            assert(entries@.skip(i as int).drop_first() =~= entries@.skip(i + 1));
        }
        if bytes_eq(&entries[i].key, key) {
            return Some(&entries[i].value);
        }
        i += 1;
    }
    proof {
        assert(entries@.skip(n as int) =~= Seq::<DictEntry>::empty());
    }
    None
}

/// Whether an optional binding, if present, is a byte string.
pub open spec fn opt_bytes_ok(g: Option<Bvalue>) -> bool {
    match g {
        None => true,
        Some(v) => v is Bytes,
    }
}

/// Relates an optional byte-string binding to an extracted field.
pub open spec fn opt_bytes_rel(g: Option<Bvalue>, f: Option<Vec<u8>>) -> bool {
    match g {
        None => f is None,
        Some(v) => v is Bytes && (f matches Some(x) && x@ == v->Bytes_0@),
    }
}

/// Whether an optional binding, if present, is an integer.
pub open spec fn opt_int_ok(g: Option<Bvalue>) -> bool {
    match g {
        None => true,
        Some(v) => v is Int,
    }
}

/// Relates an optional integer binding to an extracted field.
pub open spec fn opt_int_rel(g: Option<Bvalue>, f: Option<i64>) -> bool {
    match g {
        None => f is None,
        Some(v) => v is Int && f == Some(v->Int_0),
    }
}

/// Whether a value is a list of byte strings.
pub open spec fn bytes_list_ok(v: Bvalue) -> bool {
    v is List && forall|i: int| 0 <= i < v->List_0@.len() ==> v->List_0@[i] is Bytes
}

/// The sequence of byte strings held by a list value.
pub open spec fn spec_bytes_list(v: Bvalue) -> Seq<Seq<u8>> {
    Seq::new(v->List_0@.len(), |i: int| v->List_0@[i]->Bytes_0@)
}

fn get_opt_bytes(entries: &Vec<DictEntry>, key: &Vec<u8>) -> (r: Result<Option<Vec<u8>>, Error>)
    ensures
        r matches Ok(o) ==> opt_bytes_ok(spec_dict_get(entries@, key@)) && opt_bytes_rel(
            spec_dict_get(entries@, key@),
            o,
        ),
        r is Err ==> !opt_bytes_ok(spec_dict_get(entries@, key@)),
        r matches Err(e) ==> e == Error::Decode,
{
    match dict_find(entries, key) {
        None => Ok(None),
        Some(v) => match v {
            Bvalue::Bytes(b) => Ok(Some(copy_bytes(b))),
            _ => Err(Error::Decode),
        },
    }
}

pub(crate) fn get_req_bytes(entries: &Vec<DictEntry>, key: &Vec<u8>) -> (r: Result<Vec<u8>, Error>)
    ensures
        r matches Ok(x) ==> spec_dict_get(entries@, key@) matches Some(v) && v is Bytes && x@
            == v->Bytes_0@,
        r is Err ==> !(spec_dict_get(entries@, key@) matches Some(v) && v is Bytes),
        r matches Err(e) ==> e == Error::Decode,
{
    match dict_find(entries, key) {
        None => Err(Error::Decode),
        Some(v) => match v {
            Bvalue::Bytes(b) => Ok(copy_bytes(b)),
            _ => Err(Error::Decode),
        },
    }
}

fn get_req_int(entries: &Vec<DictEntry>, key: &Vec<u8>) -> (r: Result<i64, Error>)
    ensures
        r matches Ok(x) ==> spec_dict_get(entries@, key@) matches Some(v) && v is Int && x
            == v->Int_0,
        r is Err ==> !(spec_dict_get(entries@, key@) matches Some(v) && v is Int),
        r matches Err(e) ==> e == Error::Decode,
{
    match dict_find(entries, key) {
        None => Err(Error::Decode),
        Some(v) => match v {
            Bvalue::Int(n) => Ok(*n),
            _ => Err(Error::Decode),
        },
    }
}

pub(crate) fn get_opt_int(entries: &Vec<DictEntry>, key: &Vec<u8>) -> (r: Result<Option<i64>, Error>)
    ensures
        r matches Ok(o) ==> opt_int_ok(spec_dict_get(entries@, key@)) && opt_int_rel(
            spec_dict_get(entries@, key@),
            o,
        ),
        r is Err ==> !opt_int_ok(spec_dict_get(entries@, key@)),
        r matches Err(e) ==> e == Error::Decode,
{
    match dict_find(entries, key) {
        None => Ok(None),
        Some(v) => match v {
            Bvalue::Int(n) => Ok(Some(*n)),
            _ => Err(Error::Decode),
        },
    }
}

/// Whether an optional binding, if present, is an integer in `0..=255`.
pub open spec fn opt_u8_ok(g: Option<Bvalue>) -> bool {
    match g {
        None => true,
        Some(v) => v is Int && 0 <= v->Int_0 <= 255,
    }
}

/// Relates an optional small-integer binding to an extracted `u8` field.
pub open spec fn opt_u8_rel(g: Option<Bvalue>, f: Option<u8>) -> bool {
    match g {
        None => f is None,
        Some(v) => v is Int && 0 <= v->Int_0 <= 255 && f == Some(v->Int_0 as u8),
    }
}

fn get_opt_u8(entries: &Vec<DictEntry>, key: &Vec<u8>) -> (r: Result<Option<u8>, Error>)
    ensures
        r matches Ok(o) ==> opt_u8_ok(spec_dict_get(entries@, key@)) && opt_u8_rel(
            spec_dict_get(entries@, key@),
            o,
        ),
        r is Err ==> !opt_u8_ok(spec_dict_get(entries@, key@)),
        r matches Err(e) ==> e == Error::Decode,
{
    match dict_find(entries, key) {
        None => Ok(None),
        Some(v) => match v {
            Bvalue::Int(n) => {
                if *n < 0 || *n > 255 {
                    Err(Error::Decode)
                } else {
                    Ok(Some(*n as u8))
                }
            },
            _ => Err(Error::Decode),
        },
    }
}

/// Converts a list-of-byte-strings value.
#[verifier::loop_isolation(false)]
fn as_bytes_list(v: &Bvalue) -> (r: Result<Vec<Vec<u8>>, Error>)
    ensures
        r matches Ok(out) ==> bytes_list_ok(*v) && out.deep_view() == spec_bytes_list(*v),
        r is Err ==> !bytes_list_ok(*v),
        r matches Err(e) ==> e == Error::Decode,
{
    match v {
        Bvalue::List(items) => {
            let n = items.len();
            let mut out: Vec<Vec<u8>> = Vec::new();
            let mut i: usize = 0;
            while i < n
                invariant
                    n == items@.len(),
                    i <= n,
                    forall|j: int| 0 <= j < i ==> items@[j] is Bytes,
                    out.deep_view() =~= Seq::new(i as nat, |j: int| items@[j]->Bytes_0@),
                decreases n - i,
            {
                match &items[i] {
                    Bvalue::Bytes(b) => {
                        let nb = copy_bytes(b);
                        proof {
                            assert(nb.deep_view() =~= nb@);
                        }
                        let ghost old_dv = out.deep_view();
                        out.push(nb);
                        proof {
                            let next = Seq::new((i + 1) as nat, |j: int| items@[j]->Bytes_0@);
                            assert forall|j: int| 0 <= j < i + 1 implies out.deep_view()[j]
                                == next[j] by {
                                if j < i as int {
                                    assert(out@[j].deep_view() == old_dv[j]);
                                } else {
                                    assert(out@[j] == nb);
                                }
                            }
                            assert(out.deep_view() =~= next);
                        }
                    },
                    _ => {
                        return Err(Error::Decode);
                    },
                }
                i += 1;
            }
            proof {
                assert(out.deep_view() =~= spec_bytes_list(*v));
            }
            Ok(out)
        },
        _ => Err(Error::Decode),
    }
}

pub open spec fn opt_bytes_list_ok(g: Option<Bvalue>) -> bool {
    match g {
        None => true,
        Some(v) => bytes_list_ok(v),
    }
}

pub open spec fn opt_bytes_list_rel(g: Option<Bvalue>, f: Option<Vec<Vec<u8>>>) -> bool {
    match g {
        None => f is None,
        Some(v) => bytes_list_ok(v) && (f matches Some(x) && x.deep_view() == spec_bytes_list(v)),
    }
}

fn get_opt_bytes_list(entries: &Vec<DictEntry>, key: &Vec<u8>) -> (r: Result<
    Option<Vec<Vec<u8>>>,
    Error,
>)
    ensures
        r matches Ok(o) ==> opt_bytes_list_ok(spec_dict_get(entries@, key@)) && opt_bytes_list_rel(
            spec_dict_get(entries@, key@),
            o,
        ),
        r is Err ==> !opt_bytes_list_ok(spec_dict_get(entries@, key@)),
        r matches Err(e) ==> e == Error::Decode,
{
    match dict_find(entries, key) {
        None => Ok(None),
        Some(v) => match as_bytes_list(v) {
            Ok(x) => Ok(Some(x)),
            Err(e) => Err(e),
        },
    }
}

} // verus!

verus! {

/// Whether a value is a well-shaped file entry: a dictionary with a
/// `path` list of byte strings, an integer `length`, and an optional
/// `md5sum` byte string.
pub open spec fn file_ok(v: Bvalue) -> bool {
    &&& v is Dict
    &&& (spec_dict_get(v->Dict_0@, key_path()) matches Some(p) && bytes_list_ok(p))
    &&& (spec_dict_get(v->Dict_0@, key_length()) matches Some(l) && l is Int)
    &&& opt_bytes_ok(spec_dict_get(v->Dict_0@, key_md5sum()))
}

/// Relates a file-entry value to an extracted `File`.
pub open spec fn file_rel(v: Bvalue, f: File) -> bool {
    &&& (spec_dict_get(v->Dict_0@, key_path()) matches Some(p) && f.path.deep_view()
        == spec_bytes_list(p))
    &&& (spec_dict_get(v->Dict_0@, key_length()) matches Some(l) && f.length == l->Int_0)
    &&& opt_bytes_rel(spec_dict_get(v->Dict_0@, key_md5sum()), f.md5sum)
}

fn as_file(v: &Bvalue) -> (r: Result<File, Error>)
    ensures
        r matches Ok(f) ==> file_ok(*v) && file_rel(*v, f),
        r is Err ==> !file_ok(*v),
        r matches Err(e) ==> e == Error::Decode,
{
    let entries = match v {
        Bvalue::Dict(es) => es,
        _ => {
            return Err(Error::Decode);
        },
    };
    let kpath: Vec<u8> = vec!['p' as u8, 'a' as u8, 't' as u8, 'h' as u8];
    assert(kpath@ =~= key_path());
    let path = match dict_find(entries, &kpath) {
        Some(pv) => match as_bytes_list(pv) {
            Ok(x) => x,
            Err(e) => {
                return Err(e);
            },
        },
        None => {
            return Err(Error::Decode);
        },
    };
    let klength: Vec<u8> = vec!['l' as u8, 'e' as u8, 'n' as u8, 'g' as u8, 't' as u8, 'h' as u8];
    assert(klength@ =~= key_length());
    let length = match get_req_int(entries, &klength) {
        Ok(x) => x,
        Err(e) => {
            return Err(e);
        },
    };
    let kmd5: Vec<u8> = vec!['m' as u8, 'd' as u8, '5' as u8, 's' as u8, 'u' as u8, 'm' as u8];
    assert(kmd5@ =~= key_md5sum());
    let md5sum = match get_opt_bytes(entries, &kmd5) {
        Ok(x) => x,
        Err(e) => {
            return Err(e);
        },
    };
    Ok(File { path, length, md5sum })
}

/// Whether a value is a list of well-shaped file entries.
pub open spec fn files_ok(v: Bvalue) -> bool {
    v is List && forall|i: int| 0 <= i < v->List_0@.len() ==> file_ok(#[trigger] v->List_0@[i])
}

/// Relates a file-list value to the extracted files.
pub open spec fn files_rel(v: Bvalue, fl: Seq<File>) -> bool {
    &&& fl.len() == v->List_0@.len()
    &&& forall|i: int| 0 <= i < fl.len() ==> file_rel(#[trigger] v->List_0@[i], fl[i])
}

#[verifier::loop_isolation(false)]
fn as_files(v: &Bvalue) -> (r: Result<Vec<File>, Error>)
    ensures
        r matches Ok(out) ==> files_ok(*v) && files_rel(*v, out@),
        r is Err ==> !files_ok(*v),
        r matches Err(e) ==> e == Error::Decode,
{
    match v {
        Bvalue::List(items) => {
            let n = items.len();
            let mut out: Vec<File> = Vec::new();
            let mut i: usize = 0;
            while i < n
                invariant
                    i <= n,
                    out@.len() == i,
                    forall|j: int| 0 <= j < i ==> file_ok(#[trigger] items@[j]),
                    forall|j: int| 0 <= j < i ==> file_rel(#[trigger] items@[j], out@[j]),
                decreases n - i,
            {
                match as_file(&items[i]) {
                    Ok(f) => {
                        out.push(f);
                    },
                    Err(e) => {
                        return Err(e);
                    },
                }
                i += 1;
            }
            Ok(out)
        },
        _ => Err(Error::Decode),
    }
}

pub open spec fn opt_files_ok(g: Option<Bvalue>) -> bool {
    match g {
        None => true,
        Some(v) => files_ok(v),
    }
}

pub open spec fn opt_files_rel(g: Option<Bvalue>, f: Option<Vec<File>>) -> bool {
    match g {
        None => f is None,
        Some(v) => files_ok(v) && (f matches Some(x) && files_rel(v, x@)),
    }
}

fn get_opt_files(entries: &Vec<DictEntry>, key: &Vec<u8>) -> (r: Result<Option<Vec<File>>, Error>)
    ensures
        r matches Ok(o) ==> opt_files_ok(spec_dict_get(entries@, key@)) && opt_files_rel(
            spec_dict_get(entries@, key@),
            o,
        ),
        r is Err ==> !opt_files_ok(spec_dict_get(entries@, key@)),
        r matches Err(e) ==> e == Error::Decode,
{
    match dict_find(entries, key) {
        None => Ok(None),
        Some(v) => match as_files(v) {
            Ok(x) => Ok(Some(x)),
            Err(e) => Err(e),
        },
    }
}

/// Whether a value is a well-shaped DHT node hint: a two-element list of a
/// byte string and an integer.
pub open spec fn node_ok(v: Bvalue) -> bool {
    &&& v is List
    &&& v->List_0@.len() == 2
    &&& v->List_0@[0] is Bytes
    &&& v->List_0@[1] is Int
}

/// Relates a node value to an extracted `Node`.
pub open spec fn node_rel(v: Bvalue, n: Node) -> bool {
    &&& n.0@ == v->List_0@[0]->Bytes_0@
    &&& n.1 == v->List_0@[1]->Int_0
}

pub open spec fn nodes_ok(v: Bvalue) -> bool {
    v is List && forall|i: int| 0 <= i < v->List_0@.len() ==> node_ok(#[trigger] v->List_0@[i])
}

pub open spec fn nodes_rel(v: Bvalue, ns: Seq<Node>) -> bool {
    &&& ns.len() == v->List_0@.len()
    &&& forall|i: int| 0 <= i < ns.len() ==> node_rel(#[trigger] v->List_0@[i], ns[i])
}

fn as_node(v: &Bvalue) -> (r: Result<Node, Error>)
    ensures
        r matches Ok(n) ==> node_ok(*v) && node_rel(*v, n),
        r is Err ==> !node_ok(*v),
        r matches Err(e) ==> e == Error::Decode,
{
    let items = match v {
        Bvalue::List(its) => its,
        _ => {
            return Err(Error::Decode);
        },
    };
    if items.len() != 2 {
        return Err(Error::Decode);
    }
    let host = match &items[0] {
        Bvalue::Bytes(b) => copy_bytes(b),
        _ => {
            return Err(Error::Decode);
        },
    };
    let port = match &items[1] {
        Bvalue::Int(n) => *n,
        _ => {
            return Err(Error::Decode);
        },
    };
    Ok(Node(host, port))
}

#[verifier::loop_isolation(false)]
fn as_nodes(v: &Bvalue) -> (r: Result<Vec<Node>, Error>)
    ensures
        r matches Ok(out) ==> nodes_ok(*v) && nodes_rel(*v, out@),
        r is Err ==> !nodes_ok(*v),
        r matches Err(e) ==> e == Error::Decode,
{
    match v {
        Bvalue::List(items) => {
            let n = items.len();
            let mut out: Vec<Node> = Vec::new();
            let mut i: usize = 0;
            while i < n
                invariant
                    i <= n,
                    out@.len() == i,
                    forall|j: int| 0 <= j < i ==> node_ok(#[trigger] items@[j]),
                    forall|j: int| 0 <= j < i ==> node_rel(#[trigger] items@[j], out@[j]),
                decreases n - i,
            {
                match as_node(&items[i]) {
                    Ok(x) => {
                        out.push(x);
                    },
                    Err(e) => {
                        return Err(e);
                    },
                }
                i += 1;
            }
            Ok(out)
        },
        _ => Err(Error::Decode),
    }
}

pub open spec fn opt_nodes_ok(g: Option<Bvalue>) -> bool {
    match g {
        None => true,
        Some(v) => nodes_ok(v),
    }
}

pub open spec fn opt_nodes_rel(g: Option<Bvalue>, f: Option<Vec<Node>>) -> bool {
    match g {
        None => f is None,
        Some(v) => nodes_ok(v) && (f matches Some(x) && nodes_rel(v, x@)),
    }
}

fn get_opt_nodes(entries: &Vec<DictEntry>, key: &Vec<u8>) -> (r: Result<Option<Vec<Node>>, Error>)
    ensures
        r matches Ok(o) ==> opt_nodes_ok(spec_dict_get(entries@, key@)) && opt_nodes_rel(
            spec_dict_get(entries@, key@),
            o,
        ),
        r is Err ==> !opt_nodes_ok(spec_dict_get(entries@, key@)),
        r matches Err(e) ==> e == Error::Decode,
{
    match dict_find(entries, key) {
        None => Ok(None),
        Some(v) => match as_nodes(v) {
            Ok(x) => Ok(Some(x)),
            Err(e) => Err(e),
        },
    }
}

/// Whether a value is a list of lists of byte strings (tracker URL groups).
pub open spec fn listlist_ok(v: Bvalue) -> bool {
    v is List && forall|i: int| 0 <= i < v->List_0@.len() ==> bytes_list_ok(
        #[trigger] v->List_0@[i],
    )
}

/// The nested byte strings held by a list-of-lists value.
pub open spec fn spec_listlist(v: Bvalue) -> Seq<Seq<Seq<u8>>> {
    Seq::new(v->List_0@.len(), |i: int| spec_bytes_list(v->List_0@[i]))
}

#[verifier::loop_isolation(false)]
fn as_listlist(v: &Bvalue) -> (r: Result<Vec<Vec<Vec<u8>>>, Error>)
    ensures
        r matches Ok(out) ==> listlist_ok(*v) && out.deep_view() == spec_listlist(*v),
        r is Err ==> !listlist_ok(*v),
        r matches Err(e) ==> e == Error::Decode,
{
    match v {
        Bvalue::List(items) => {
            let n = items.len();
            let mut out: Vec<Vec<Vec<u8>>> = Vec::new();
            let mut i: usize = 0;
            while i < n
                invariant
                    i <= n,
                    out@.len() == i,
                    forall|j: int| 0 <= j < i ==> bytes_list_ok(#[trigger] items@[j]),
                    out.deep_view() =~= Seq::new(i as nat, |j: int| spec_bytes_list(items@[j])),
                decreases n - i,
            {
                match as_bytes_list(&items[i]) {
                    Ok(x) => {
                        let ghost old_dv = out.deep_view();
                        let ghost xdv = x.deep_view();
                        out.push(x);
                        proof {
                            let next = Seq::new((i + 1) as nat, |j: int| spec_bytes_list(
                                items@[j],
                            ));
                            assert forall|j: int| 0 <= j < i + 1 implies out.deep_view()[j]
                                == next[j] by {
                                if j < i as int {
                                    assert(out@[j].deep_view() == old_dv[j]);
                                } else {
                                    assert(out@[j].deep_view() == xdv);
                                }
                            }
                            assert(out.deep_view() =~= next);
                        }
                    },
                    Err(e) => {
                        return Err(e);
                    },
                }
                i += 1;
            }
            proof {
                assert(out.deep_view() =~= spec_listlist(*v));
            }
            Ok(out)
        },
        _ => Err(Error::Decode),
    }
}

pub open spec fn opt_listlist_ok(g: Option<Bvalue>) -> bool {
    match g {
        None => true,
        Some(v) => listlist_ok(v),
    }
}

pub open spec fn opt_listlist_rel(g: Option<Bvalue>, f: Option<Vec<Vec<Vec<u8>>>>) -> bool {
    match g {
        None => f is None,
        Some(v) => listlist_ok(v) && (f matches Some(x) && x.deep_view() == spec_listlist(v)),
    }
}

fn get_opt_listlist(entries: &Vec<DictEntry>, key: &Vec<u8>) -> (r: Result<
    Option<Vec<Vec<Vec<u8>>>>,
    Error,
>)
    ensures
        r matches Ok(o) ==> opt_listlist_ok(spec_dict_get(entries@, key@)) && opt_listlist_rel(
            spec_dict_get(entries@, key@),
            o,
        ),
        r is Err ==> !opt_listlist_ok(spec_dict_get(entries@, key@)),
        r matches Err(e) ==> e == Error::Decode,
{
    match dict_find(entries, key) {
        None => Ok(None),
        Some(v) => match as_listlist(v) {
            Ok(x) => Ok(Some(x)),
            Err(e) => Err(e),
        },
    }
}

} // verus!

verus! {

/// Option-level value matching: the looked-up bindings of two matched
/// dictionaries relate like their values.
pub open spec fn opt_value_matches(ga: Option<Bvalue>, gb: Option<Bvalue>) -> bool {
    match gb {
        None => ga is None,
        Some(vb) => ga matches Some(va) && value_matches(va, vb),
    }
}

/// Lookup respects entry matching: matched dictionaries bind matched
/// values under every key.
pub proof fn lemma_dict_get_matches(a: Seq<DictEntry>, b: Seq<DictEntry>, key: Seq<u8>)
    requires
        entries_match(a, b),
    ensures
        opt_value_matches(spec_dict_get(a, key), spec_dict_get(b, key)),
    decreases a.len(),
{
    if a.len() > 0 {
        assert(entry_matches(a[0], b[0]));
        if a.first().key@ != key {
            assert(entries_match(a.drop_first(), b.drop_first())) by {
                assert forall|i: int| 0 <= i < a.drop_first().len() implies entry_matches(
                    #[trigger] a.drop_first()[i],
                    b.drop_first()[i],
                ) by {
                    assert(entry_matches(a[i + 1], b[i + 1]));
                }
            }
            lemma_dict_get_matches(a.drop_first(), b.drop_first(), key);
        }
    }
}

/// A value matching a list of byte strings is one itself, with the same
/// byte strings.
pub proof fn lemma_matches_bytes_list_ok(va: Bvalue, vb: Bvalue)
    requires
        value_matches(va, vb),
        bytes_list_ok(vb),
    ensures
        bytes_list_ok(va),
{
    assert forall|i: int| 0 <= i < va->List_0@.len() implies (#[trigger] va->List_0@[i])
        is Bytes by {
        assert(value_matches(va->List_0@[i], vb->List_0@[i]));
    }
}

/// A value matching a well-shaped file entry is one itself.
pub proof fn lemma_matches_file_ok(va: Bvalue, vb: Bvalue)
    requires
        value_matches(va, vb),
        file_ok(vb),
    ensures
        file_ok(va),
{
    assert(entries_match(va->Dict_0@, vb->Dict_0@));
    lemma_dict_get_matches(va->Dict_0@, vb->Dict_0@, key_path());
    lemma_dict_get_matches(va->Dict_0@, vb->Dict_0@, key_length());
    lemma_dict_get_matches(va->Dict_0@, vb->Dict_0@, key_md5sum());
    lemma_matches_bytes_list_ok(
        spec_dict_get(va->Dict_0@, key_path())->0,
        spec_dict_get(vb->Dict_0@, key_path())->0,
    );
}

/// A matched pair of dictionary entry sequences satisfies the same
/// well-shapedness conditions for the `info` dictionary.
pub proof fn lemma_matches_info_ok(va: Bvalue, vb: Bvalue)
    requires
        value_matches(va, vb),
        spec_info_ok(vb),
    ensures
        spec_info_ok(va),
{
    let a = va->Dict_0@;
    let b = vb->Dict_0@;
    assert(entries_match(a, b));
    lemma_dict_get_matches(a, b, key_name());
    lemma_dict_get_matches(a, b, key_pieces());
    lemma_dict_get_matches(a, b, key_piece_length());
    lemma_dict_get_matches(a, b, key_md5sum());
    lemma_dict_get_matches(a, b, key_length());
    lemma_dict_get_matches(a, b, key_files());
    lemma_dict_get_matches(a, b, key_private());
    lemma_dict_get_matches(a, b, key_path());
    lemma_dict_get_matches(a, b, key_root_hash());
    if spec_dict_get(b, key_files()) is Some {
        let fa = spec_dict_get(a, key_files())->0;
        let fb = spec_dict_get(b, key_files())->0;
        assert forall|i: int| 0 <= i < fa->List_0@.len() implies file_ok(
            #[trigger] fa->List_0@[i],
        ) by {
            assert(value_matches(fa->List_0@[i], fb->List_0@[i]));
            lemma_matches_file_ok(fa->List_0@[i], fb->List_0@[i]);
        }
    }
    if spec_dict_get(b, key_path()) is Some {
        lemma_matches_bytes_list_ok(
            spec_dict_get(a, key_path())->0,
            spec_dict_get(b, key_path())->0,
        );
    }
}

/// Matched top-level entry sequences satisfy the same torrent
/// well-shapedness conditions.
pub proof fn lemma_matches_torrent_ok(a: Seq<DictEntry>, b: Seq<DictEntry>)
    requires
        entries_match(a, b),
        spec_torrent_ok(b),
    ensures
        spec_torrent_ok(a),
{
    lemma_dict_get_matches(a, b, key_info());
    lemma_dict_get_matches(a, b, key_announce());
    lemma_dict_get_matches(a, b, key_nodes());
    lemma_dict_get_matches(a, b, key_encoding());
    lemma_dict_get_matches(a, b, key_httpseeds());
    lemma_dict_get_matches(a, b, key_announce_list());
    lemma_dict_get_matches(a, b, key_creation_date());
    lemma_dict_get_matches(a, b, key_comment());
    lemma_dict_get_matches(a, b, key_created_by());
    lemma_matches_info_ok(spec_dict_get(a, key_info())->0, spec_dict_get(b, key_info())->0);
    if spec_dict_get(b, key_nodes()) is Some {
        let na = spec_dict_get(a, key_nodes())->0;
        let nb = spec_dict_get(b, key_nodes())->0;
        assert forall|i: int| 0 <= i < na->List_0@.len() implies node_ok(
            #[trigger] na->List_0@[i],
        ) by {
            let ea = na->List_0@[i];
            let eb = nb->List_0@[i];
            assert(value_matches(ea, eb));
            assert(node_ok(eb));
            assert(value_matches(ea->List_0@[0], eb->List_0@[0]));
            assert(value_matches(ea->List_0@[1], eb->List_0@[1]));
        }
    }
    if spec_dict_get(b, key_httpseeds()) is Some {
        lemma_matches_bytes_list_ok(
            spec_dict_get(a, key_httpseeds())->0,
            spec_dict_get(b, key_httpseeds())->0,
        );
    }
    if spec_dict_get(b, key_announce_list()) is Some {
        let la = spec_dict_get(a, key_announce_list())->0;
        let lb = spec_dict_get(b, key_announce_list())->0;
        assert forall|i: int| 0 <= i < la->List_0@.len() implies bytes_list_ok(
            #[trigger] la->List_0@[i],
        ) by {
            assert(value_matches(la->List_0@[i], lb->List_0@[i]));
            lemma_matches_bytes_list_ok(la->List_0@[i], lb->List_0@[i]);
        }
    }
}

/// Whether a value is a well-shaped `info` dictionary: required keys
/// present with the right types, the piece table a multiple of 20 bytes,
/// and exactly one of `length` / `files` present.
pub open spec fn spec_info_ok(v: Bvalue) -> bool {
    &&& v is Dict
    &&& (spec_dict_get(v->Dict_0@, key_name()) matches Some(nv) && nv is Bytes)
    &&& (spec_dict_get(v->Dict_0@, key_pieces()) matches Some(pv) && pv is Bytes
        && pv->Bytes_0@.len() % 20 == 0)
    &&& (spec_dict_get(v->Dict_0@, key_piece_length()) matches Some(lv) && lv is Int
        && lv->Int_0 > 0)
    &&& opt_bytes_ok(spec_dict_get(v->Dict_0@, key_md5sum()))
    &&& opt_int_ok(spec_dict_get(v->Dict_0@, key_length()))
    &&& opt_files_ok(spec_dict_get(v->Dict_0@, key_files()))
    &&& opt_u8_ok(spec_dict_get(v->Dict_0@, key_private()))
    &&& opt_bytes_list_ok(spec_dict_get(v->Dict_0@, key_path()))
    &&& opt_bytes_ok(spec_dict_get(v->Dict_0@, key_root_hash()))
    &&& (spec_dict_get(v->Dict_0@, key_length()) is Some) != (spec_dict_get(
        v->Dict_0@,
        key_files(),
    ) is Some)
}

/// Relates an `info` dictionary value to the extracted `Info`, field by
/// field.
pub open spec fn spec_info_rel(v: Bvalue, inf: Info) -> bool {
    &&& (spec_dict_get(v->Dict_0@, key_name()) matches Some(nv) && inf.name@ == nv->Bytes_0@)
    &&& (spec_dict_get(v->Dict_0@, key_pieces()) matches Some(pv) && inf.pieces@ == pv->Bytes_0@)
    &&& (spec_dict_get(v->Dict_0@, key_piece_length()) matches Some(lv) && inf.piece_length
        == lv->Int_0)
    &&& opt_bytes_rel(spec_dict_get(v->Dict_0@, key_md5sum()), inf.md5sum)
    &&& opt_int_rel(spec_dict_get(v->Dict_0@, key_length()), inf.length)
    &&& opt_files_rel(spec_dict_get(v->Dict_0@, key_files()), inf.files)
    &&& opt_u8_rel(spec_dict_get(v->Dict_0@, key_private()), inf.private)
    &&& opt_bytes_list_rel(spec_dict_get(v->Dict_0@, key_path()), inf.path)
    &&& opt_bytes_rel(spec_dict_get(v->Dict_0@, key_root_hash()), inf.root_hash)
}

/// Extracts the `Info` structure from a decoded `info` value.  Succeeds
/// exactly on well-shaped dictionaries, and then pins every field.
pub fn parse_info(v: &Bvalue) -> (r: Result<Info, Error>)
    ensures
        r matches Ok(inf) ==> spec_info_ok(*v) && spec_info_rel(*v, inf) && inf.wf(),
        r is Err <==> !spec_info_ok(*v),
        r matches Err(e) ==> e == Error::Decode,
{
    let entries = match v {
        Bvalue::Dict(es) => es,
        _ => {
            return Err(Error::Decode);
        },
    };
    let kname: Vec<u8> = vec!['n' as u8, 'a' as u8, 'm' as u8, 'e' as u8];
    assert(kname@ =~= key_name());
    let name = match get_req_bytes(entries, &kname) {
        Ok(x) => x,
        Err(e) => {
            return Err(e);
        },
    };
    let kpieces: Vec<u8> = vec!['p' as u8, 'i' as u8, 'e' as u8, 'c' as u8, 'e' as u8, 's' as u8];
    assert(kpieces@ =~= key_pieces());
    let pieces = match get_req_bytes(entries, &kpieces) {
        Ok(x) => x,
        Err(e) => {
            return Err(e);
        },
    };
    if pieces.len() % 20 != 0 {
        return Err(Error::Decode);
    }
    let kplen: Vec<u8> = vec!['p' as u8, 'i' as u8, 'e' as u8, 'c' as u8, 'e' as u8, ' ' as u8,
        'l' as u8, 'e' as u8, 'n' as u8, 'g' as u8, 't' as u8, 'h' as u8];
    assert(kplen@ =~= key_piece_length());
    let piece_length = match get_req_int(entries, &kplen) {
        Ok(x) => x,
        Err(e) => {
            return Err(e);
        },
    };
    if piece_length <= 0 {
        return Err(Error::Decode);
    }
    let kmd5: Vec<u8> = vec!['m' as u8, 'd' as u8, '5' as u8, 's' as u8, 'u' as u8, 'm' as u8];
    assert(kmd5@ =~= key_md5sum());
    let md5sum = match get_opt_bytes(entries, &kmd5) {
        Ok(x) => x,
        Err(e) => {
            return Err(e);
        },
    };
    let klength: Vec<u8> = vec!['l' as u8, 'e' as u8, 'n' as u8, 'g' as u8, 't' as u8, 'h' as u8];
    assert(klength@ =~= key_length());
    let length = match get_opt_int(entries, &klength) {
        Ok(x) => x,
        Err(e) => {
            return Err(e);
        },
    };
    let kfiles: Vec<u8> = vec!['f' as u8, 'i' as u8, 'l' as u8, 'e' as u8, 's' as u8];
    assert(kfiles@ =~= key_files());
    let files = match get_opt_files(entries, &kfiles) {
        Ok(x) => x,
        Err(e) => {
            return Err(e);
        },
    };
    let kpriv: Vec<u8> = vec!['p' as u8, 'r' as u8, 'i' as u8, 'v' as u8, 'a' as u8, 't' as u8,
        'e' as u8];
    assert(kpriv@ =~= key_private());
    let private = match get_opt_u8(entries, &kpriv) {
        Ok(x) => x,
        Err(e) => {
            return Err(e);
        },
    };
    let kpath: Vec<u8> = vec!['p' as u8, 'a' as u8, 't' as u8, 'h' as u8];
    assert(kpath@ =~= key_path());
    let path = match get_opt_bytes_list(entries, &kpath) {
        Ok(x) => x,
        Err(e) => {
            return Err(e);
        },
    };
    let kroot: Vec<u8> = vec!['r' as u8, 'o' as u8, 'o' as u8, 't' as u8, ' ' as u8, 'h' as u8,
        'a' as u8, 's' as u8, 'h' as u8];
    assert(kroot@ =~= key_root_hash());
    let root_hash = match get_opt_bytes(entries, &kroot) {
        Ok(x) => x,
        Err(e) => {
            return Err(e);
        },
    };
    // Exactly one of `length` / `files` must be present.
    if length.is_some() == files.is_some() {
        return Err(Error::Decode);
    }
    Ok(Info { name, pieces, piece_length, md5sum, length, files, private, path, root_hash })
}

/// Whether a top-level dictionary is a well-shaped torrent document.
pub open spec fn spec_torrent_ok(entries: Seq<DictEntry>) -> bool {
    &&& (spec_dict_get(entries, key_info()) matches Some(iv) && spec_info_ok(iv))
    &&& opt_bytes_ok(spec_dict_get(entries, key_announce()))
    &&& opt_nodes_ok(spec_dict_get(entries, key_nodes()))
    &&& opt_bytes_ok(spec_dict_get(entries, key_encoding()))
    &&& opt_bytes_list_ok(spec_dict_get(entries, key_httpseeds()))
    &&& opt_listlist_ok(spec_dict_get(entries, key_announce_list()))
    &&& opt_int_ok(spec_dict_get(entries, key_creation_date()))
    &&& opt_bytes_ok(spec_dict_get(entries, key_comment()))
    &&& opt_bytes_ok(spec_dict_get(entries, key_created_by()))
}

/// Relates a top-level dictionary to the extracted `Torrent`, field by
/// field; `info_bytes` is the canonical encoding of the `info` value.
pub open spec fn spec_torrent_rel(entries: Seq<DictEntry>, t: Torrent) -> bool {
    &&& (spec_dict_get(entries, key_info()) matches Some(iv) && spec_info_rel(iv, t.info)
        && t.info_bytes@ == spec_encode(iv))
    &&& opt_bytes_rel(spec_dict_get(entries, key_announce()), t.announce)
    &&& opt_nodes_rel(spec_dict_get(entries, key_nodes()), t.nodes)
    &&& opt_bytes_rel(spec_dict_get(entries, key_encoding()), t.encoding)
    &&& opt_bytes_list_rel(spec_dict_get(entries, key_httpseeds()), t.httpseeds)
    &&& opt_listlist_rel(spec_dict_get(entries, key_announce_list()), t.announce_list)
    &&& opt_int_rel(spec_dict_get(entries, key_creation_date()), t.creation_date)
    &&& opt_bytes_rel(spec_dict_get(entries, key_comment()), t.comment)
    &&& opt_bytes_rel(spec_dict_get(entries, key_created_by()), t.created_by)
}

/// A buffer that is exactly one encoded dictionary frames its entry body.
pub proof fn lemma_whole_dict(buf: Seq<u8>, s: Seq<DictEntry>)
    requires
        buf == seq![100u8] + spec_encode_entries(s) + seq![101u8],
    ensures
        entries_encoding_at(buf, 0, buf.len() as int, s),
{
    assert(buf.len() == 2 + spec_encode_entries(s).len());
    assert(buf[0] == 100);
    assert(buf[buf.len() - 1] == 101);
    assert(buf.subrange(0, buf.len() as int) =~= buf);
    lemma_subrange_chunk(
        buf,
        0,
        buf.len() as int,
        seq![100u8],
        spec_encode_entries(s),
        seq![101u8],
    );
}

/// Parses a whole torrent document.  On success the buffer is exactly the
/// canonical dictionary encoding of some entry sequence that relates to
/// the returned `Torrent`, and `info_bytes` holds the verbatim bytes of
/// the top-level `info` value, as required for hashing.
#[verifier::rlimit(100)]
pub fn parse_torrent(buf: &Vec<u8>) -> (r: Result<Torrent, Error>)
    ensures
        r matches Ok(t) ==> exists|entries: Seq<DictEntry>|
            #![auto]
            buf@ == seq![100u8] + spec_encode_entries(entries) + seq![101u8]
                && spec_torrent_ok(entries) && spec_torrent_rel(entries, t) && t.info.wf(),
        r matches Err(e) ==> e == Error::Decode || e == Error::InfoNotFound,
        (exists|entries: Seq<DictEntry>|
            buf@ == seq![100u8] + spec_encode_entries(entries) + seq![101u8] && spec_torrent_ok(
                entries,
            )) ==> r is Ok,
{
    if buf.len() == 0 {
        proof {
            assert forall|s2: Seq<DictEntry>| buf@ != seq![100u8] + spec_encode_entries(s2)
                + seq![101u8] by {
                if buf@ == seq![100u8] + spec_encode_entries(s2) + seq![101u8] {
                    lemma_whole_dict(buf@, s2);
                }
            }
        }
        return Err(Error::Decode);
    }
    if buf[0] != 100 {
        proof {
            assert forall|s2: Seq<DictEntry>| buf@ != seq![100u8] + spec_encode_entries(s2)
                + seq![101u8] by {
                if buf@ == seq![100u8] + spec_encode_entries(s2) + seq![101u8] {
                    lemma_whole_dict(buf@, s2);
                }
            }
        }
        return Err(Error::Decode);
    }
    let kinfo: Vec<u8> = vec!['i' as u8, 'n' as u8, 'f' as u8, 'o' as u8];
    assert(kinfo@ =~= key_info());
    let mut entries: Vec<DictEntry> = Vec::new();
    let mut info_bytes_opt: Option<Vec<u8>> = None;
    let mut p: usize = 1;
    proof {
        assert forall|s2: Seq<DictEntry>| entries_encoding_at(
            buf@,
            0,
            buf@.len() as int,
            s2,
        ) implies entries@.len() <= s2.len() && p == 1 + spec_encode_entries(
            s2.take(entries@.len() as int),
        ).len() by {
            assert(s2.take(0) =~= Seq::<DictEntry>::empty());
        }
    }
    loop
        invariant
            1 <= p <= buf@.len(),
            buf@.len() > 0,
            buf@[0] == 100,
            kinfo@ == key_info(),
            buf@.subrange(1, p as int) == spec_encode_entries(entries@),
            match spec_dict_get(entries@, key_info()) {
                Option::None => info_bytes_opt is None,
                Option::Some(iv) => info_bytes_opt matches Some(b) && b@ == spec_encode(iv),
            },
            forall|s2: Seq<DictEntry>| #[trigger] entries_encoding_at(
                buf@,
                0,
                buf@.len() as int,
                s2,
            ) ==> entries@.len() <= s2.len() && p == 1 + spec_encode_entries(
                s2.take(entries@.len() as int),
            ).len() && (forall|j: int| 0 <= j < entries@.len() ==> entry_matches(
                #[trigger] entries@[j],
                s2[j],
            )),
        ensures
            1 <= p < buf@.len(),
            p + 1 == buf@.len(),
            buf@[p as int] == 101,
            buf@.subrange(1, p as int) == spec_encode_entries(entries@),
            match spec_dict_get(entries@, key_info()) {
                Option::None => info_bytes_opt is None,
                Option::Some(iv) => info_bytes_opt matches Some(b) && b@ == spec_encode(iv),
            },
            forall|s2: Seq<DictEntry>| #[trigger] entries_encoding_at(
                buf@,
                0,
                buf@.len() as int,
                s2,
            ) ==> entries_match(entries@, s2),
        decreases buf@.len() - p,
    {
        proof {
            assert forall|s2: Seq<DictEntry>| entries_encoding_at(buf@, 0, buf@.len() as int, s2)
                && entries@.len() < s2.len() implies {
                let k = entries@.len() as int;
                let pk2 = p + spec_encode_bytes(s2[k].key@).len();
                let q2 = pk2 + spec_encode(s2[k].value).len();
                &&& q2 <= buf@.len() - 1
                &&& bytes_encoding_at(buf@, p as int, pk2, s2[k].key@)
                &&& encoding_at(buf@, pk2, q2, s2[k].value)
                &&& is_digit_byte(buf@[p as int])
            } by {
                let k = entries@.len() as int;
                lemma_encode_entries_split(s2, k);
                lemma_encode_entries_skip_step(s2, k);
                assert(buf@.subrange(1, buf@.len() - 1) =~= spec_encode_entries(s2.take(k))
                    + spec_encode_bytes(s2[k].key@) + (spec_encode(s2[k].value)
                    + spec_encode_entries(s2.skip(k + 1))));
                lemma_subrange_chunk(
                    buf@,
                    1,
                    buf@.len() - 1,
                    spec_encode_entries(s2.take(k)),
                    spec_encode_bytes(s2[k].key@),
                    spec_encode(s2[k].value) + spec_encode_entries(s2.skip(k + 1)),
                );
                assert(buf@.subrange(1, buf@.len() - 1) =~= (spec_encode_entries(s2.take(k))
                    + spec_encode_bytes(s2[k].key@)) + spec_encode(s2[k].value)
                    + spec_encode_entries(s2.skip(k + 1)));
                lemma_subrange_chunk(
                    buf@,
                    1,
                    buf@.len() - 1,
                    spec_encode_entries(s2.take(k)) + spec_encode_bytes(s2[k].key@),
                    spec_encode(s2[k].value),
                    spec_encode_entries(s2.skip(k + 1)),
                );
                let pk2 = p + spec_encode_bytes(s2[k].key@).len();
                assert(buf@[p as int] == buf@.subrange(p as int, pk2)[0]);
                lemma_dec_digits_len(s2[k].key@.len());
                lemma_dec_digits_are_digits(s2[k].key@.len());
                assert(spec_encode_bytes(s2[k].key@)[0] == spec_dec_digits(s2[k].key@.len())[0]);
            }
        }
        if p >= buf.len() {
            proof {
                assert forall|s2: Seq<DictEntry>| !entries_encoding_at(
                    buf@,
                    0,
                    buf@.len() as int,
                    s2,
                ) by {
                    if entries_encoding_at(buf@, 0, buf@.len() as int, s2) {
                        if entries@.len() >= s2.len() {
                            assert(s2.take(entries@.len() as int) =~= s2);
                        }
                    }
                }
                assert forall|s2: Seq<DictEntry>| buf@ != seq![100u8] + spec_encode_entries(s2)
                    + seq![101u8] by {
                    if buf@ == seq![100u8] + spec_encode_entries(s2) + seq![101u8] {
                        lemma_whole_dict(buf@, s2);
                    }
                }
            }
            return Err(Error::Decode);
        }
        if buf[p] == 101 {
            if p + 1 != buf.len() {
                // Trailing bytes after the document.
                proof {
                    assert forall|s2: Seq<DictEntry>| !entries_encoding_at(
                        buf@,
                        0,
                        buf@.len() as int,
                        s2,
                    ) by {
                        if entries_encoding_at(buf@, 0, buf@.len() as int, s2) {
                            if entries@.len() >= s2.len() {
                                assert(s2.take(entries@.len() as int) =~= s2);
                            }
                        }
                    }
                    assert forall|s2: Seq<DictEntry>| buf@ != seq![100u8] + spec_encode_entries(
                        s2,
                    ) + seq![101u8] by {
                        if buf@ == seq![100u8] + spec_encode_entries(s2) + seq![101u8] {
                            lemma_whole_dict(buf@, s2);
                        }
                    }
                }
                return Err(Error::Decode);
            }
            proof {
                assert forall|s2: Seq<DictEntry>| entries_encoding_at(
                    buf@,
                    0,
                    buf@.len() as int,
                    s2,
                ) implies entries_match(entries@, s2) by {
                    assert(s2.take(entries@.len() as int) =~= s2);
                }
            }
            break;
        }
        let (key, pk) = match parse_bytes(buf, p) {
            Ok(x) => x,
            Err(e) => {
                proof {
                    assert forall|s2: Seq<DictEntry>| !entries_encoding_at(
                        buf@,
                        0,
                        buf@.len() as int,
                        s2,
                    ) by {
                        if entries_encoding_at(buf@, 0, buf@.len() as int, s2) {
                            if entries@.len() == s2.len() {
                                assert(s2.take(entries@.len() as int) =~= s2);
                                assert(false);
                            }
                        }
                    }
                    assert forall|s2: Seq<DictEntry>| buf@ != seq![100u8] + spec_encode_entries(
                        s2,
                    ) + seq![101u8] by {
                        if buf@ == seq![100u8] + spec_encode_entries(s2) + seq![101u8] {
                            lemma_whole_dict(buf@, s2);
                        }
                    }
                }
                return Err(e);
            },
        };
        let (v, p2) = match parse_value(buf, pk) {
            Ok(x) => x,
            Err(e) => {
                proof {
                    assert forall|s2: Seq<DictEntry>| !entries_encoding_at(
                        buf@,
                        0,
                        buf@.len() as int,
                        s2,
                    ) by {
                        if entries_encoding_at(buf@, 0, buf@.len() as int, s2) {
                            if entries@.len() == s2.len() {
                                assert(s2.take(entries@.len() as int) =~= s2);
                                assert(false);
                            }
                        }
                    }
                    assert forall|s2: Seq<DictEntry>| buf@ != seq![100u8] + spec_encode_entries(
                        s2,
                    ) + seq![101u8] by {
                        if buf@ == seq![100u8] + spec_encode_entries(s2) + seq![101u8] {
                            lemma_whole_dict(buf@, s2);
                        }
                    }
                }
                return Err(e);
            },
        };
        if info_bytes_opt.is_none() && bytes_eq(&key, &kinfo) {
            info_bytes_opt = Some(copy_range(buf, pk, p2));
        }
        let entry = DictEntry { key, value: v };
        proof {
            lemma_dict_get_push(entries@, entry, key_info());
            crate::bencode::lemma_encode_entries_push(entries@, entry);
            assert(buf@.subrange(1, p2 as int) =~= buf@.subrange(1, p as int) + buf@.subrange(
                p as int,
                pk as int,
            ) + buf@.subrange(pk as int, p2 as int));
            assert forall|s2: Seq<DictEntry>| entries_encoding_at(
                buf@,
                0,
                buf@.len() as int,
                s2,
            ) implies entries@.len() < s2.len() && p2 == p + spec_encode_bytes(
                s2[entries@.len() as int].key@,
            ).len() + spec_encode(s2[entries@.len() as int].value).len() && entry_matches(
                entry,
                s2[entries@.len() as int],
            ) && spec_encode_entries(s2.take(entries@.len() as int + 1)).len()
                == spec_encode_entries(s2.take(entries@.len() as int)).len() + spec_encode_bytes(
                s2[entries@.len() as int].key@,
            ).len() + spec_encode(s2[entries@.len() as int].value).len() by {
                let k = entries@.len() as int;
                if k == s2.len() {
                    assert(s2.take(k) =~= s2);
                    assert(false);
                }
                assert(s2.take(k + 1) =~= s2.take(k).push(s2[k]));
                crate::bencode::lemma_encode_entries_push(s2.take(k), s2[k]);
            }
        }
        entries.push(entry);
        p = p2;
    }
    proof {
        assert(buf@ =~= seq![100u8] + spec_encode_entries(entries@) + seq![101u8]);
        if exists|s2: Seq<DictEntry>|
            buf@ == seq![100u8] + spec_encode_entries(s2) + seq![101u8] && spec_torrent_ok(s2) {
            let s2 = choose|s2: Seq<DictEntry>|
                buf@ == seq![100u8] + spec_encode_entries(s2) + seq![101u8] && spec_torrent_ok(s2);
            lemma_whole_dict(buf@, s2);
            lemma_matches_torrent_ok(entries@, s2);
            assert(spec_torrent_ok(entries@));
        }
    }
    let info_bytes = match info_bytes_opt {
        Some(b) => b,
        None => {
            return Err(Error::InfoNotFound);
        },
    };
    let iv = match dict_find(&entries, &kinfo) {
        Some(x) => x,
        None => {
            return Err(Error::InfoNotFound);
        },
    };
    let info = match parse_info(iv) {
        Ok(x) => x,
        Err(e) => {
            return Err(e);
        },
    };
    let kann: Vec<u8> = vec!['a' as u8, 'n' as u8, 'n' as u8, 'o' as u8, 'u' as u8, 'n' as u8,
        'c' as u8, 'e' as u8];
    assert(kann@ =~= key_announce());
    let announce = match get_opt_bytes(&entries, &kann) {
        Ok(x) => x,
        Err(e) => {
            return Err(e);
        },
    };
    let knodes: Vec<u8> = vec!['n' as u8, 'o' as u8, 'd' as u8, 'e' as u8, 's' as u8];
    assert(knodes@ =~= key_nodes());
    let nodes = match get_opt_nodes(&entries, &knodes) {
        Ok(x) => x,
        Err(e) => {
            return Err(e);
        },
    };
    let kenc: Vec<u8> = vec!['e' as u8, 'n' as u8, 'c' as u8, 'o' as u8, 'd' as u8, 'i' as u8,
        'n' as u8, 'g' as u8];
    assert(kenc@ =~= key_encoding());
    let encoding = match get_opt_bytes(&entries, &kenc) {
        Ok(x) => x,
        Err(e) => {
            return Err(e);
        },
    };
    let khttp: Vec<u8> = vec!['h' as u8, 't' as u8, 't' as u8, 'p' as u8, 's' as u8, 'e' as u8,
        'e' as u8, 'd' as u8, 's' as u8];
    assert(khttp@ =~= key_httpseeds());
    let httpseeds = match get_opt_bytes_list(&entries, &khttp) {
        Ok(x) => x,
        Err(e) => {
            return Err(e);
        },
    };
    let kal: Vec<u8> = vec!['a' as u8, 'n' as u8, 'n' as u8, 'o' as u8, 'u' as u8, 'n' as u8,
        'c' as u8, 'e' as u8, '-' as u8, 'l' as u8, 'i' as u8, 's' as u8, 't' as u8];
    assert(kal@ =~= key_announce_list());
    let announce_list = match get_opt_listlist(&entries, &kal) {
        Ok(x) => x,
        Err(e) => {
            return Err(e);
        },
    };
    let kcd: Vec<u8> = vec!['c' as u8, 'r' as u8, 'e' as u8, 'a' as u8, 't' as u8, 'i' as u8,
        'o' as u8, 'n' as u8, ' ' as u8, 'd' as u8, 'a' as u8, 't' as u8, 'e' as u8];
    assert(kcd@ =~= key_creation_date());
    let creation_date = match get_opt_int(&entries, &kcd) {
        Ok(x) => x,
        Err(e) => {
            return Err(e);
        },
    };
    let kcom: Vec<u8> = vec!['c' as u8, 'o' as u8, 'm' as u8, 'm' as u8, 'e' as u8, 'n' as u8,
        't' as u8];
    assert(kcom@ =~= key_comment());
    let comment = match get_opt_bytes(&entries, &kcom) {
        Ok(x) => x,
        Err(e) => {
            return Err(e);
        },
    };
    let kcb: Vec<u8> = vec!['c' as u8, 'r' as u8, 'e' as u8, 'a' as u8, 't' as u8, 'e' as u8,
        'd' as u8, ' ' as u8, 'b' as u8, 'y' as u8];
    assert(kcb@ =~= key_created_by());
    let created_by = match get_opt_bytes(&entries, &kcb) {
        Ok(x) => x,
        Err(e) => {
            return Err(e);
        },
    };
    let t = Torrent {
        info,
        announce,
        nodes,
        encoding,
        httpseeds,
        announce_list,
        creation_date,
        comment,
        created_by,
        info_bytes,
    };
    proof {
        assert(spec_torrent_ok(entries@));
        assert(spec_torrent_rel(entries@, t));
    }
    Ok(t)
}

} // verus!
