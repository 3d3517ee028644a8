//! From the bytes of a metadata file to a typed descriptor with its
//! content identifier.

use crate::codec::laws::{lemma_decode_encode, lemma_entry_value_place, lemma_lookup_entry};
use crate::codec::model::{decode_spec, encode_value, entry_value_offset, ValueView};
use crate::codec::{decode, Dict, ParseError};
use crate::decoder::{
    bytes_field, dict_field, field_of, get_field_by_key, integer_field, text_field,
};
use crate::hash::{compute_sha1_hash, sha1_digest};
use vstd::prelude::*;
use vstd::slice::{slice_subrange, slice_to_vec};

verus! {

/// Length in bytes of one piece hash.
pub const PIECE_HASH_LEN: usize = 20;

/// What the `info` dictionary of a metadata file says of the content.
#[derive(Clone, Debug, PartialEq, Eq)]
pub struct TorrentMetadataInfo {
    /// The hash of each piece, twenty bytes each, in the order of the pieces.
    pub pieces: Vec<Vec<u8>>,
    /// Number of bytes in a piece; positive.
    pub piece_length: i64,
    /// Number of bytes of the content; positive.
    pub length: i64,
    /// Suggested name of the content.
    pub name: String,
}

/// A metadata file, parsed.
#[derive(Clone, Debug, PartialEq, Eq)]
pub struct TorrentMetadata {
    pub info: TorrentMetadataInfo,
    /// The content identifier: the digest of the encoded `info` dictionary.
    pub info_hash: Vec<u8>,
    /// Where to announce.
    pub announce: String,
}

/// A descriptor as plain mathematical values.
pub struct MetadataView {
    pub name: Seq<char>,
    pub piece_length: int,
    pub length: int,
    pub pieces: Seq<Seq<u8>>,
    pub announce: Seq<char>,
    pub info_hash: Seq<u8>,
}

impl View for TorrentMetadata {
    type V = MetadataView;

    open spec fn view(&self) -> MetadataView {
        MetadataView {
            name: self.info.name@,
            piece_length: self.info.piece_length as int,
            length: self.info.length as int,
            pieces: Seq::new(self.info.pieces@.len(), |i: int| self.info.pieces@[i]@),
            announce: self.announce@,
            info_hash: self.info_hash@,
        }
    }
}

impl MetadataView {
    /// What holds of every descriptor that the parser makes: both lengths
    /// are positive, and the identifier and each piece hash have twenty
    /// bytes.
    pub open spec fn wf(self) -> bool {
        &&& self.piece_length > 0
        &&& self.length > 0
        &&& self.info_hash.len() == 20
        &&& forall|i: int| 0 <= i < self.pieces.len() ==> (#[trigger] self.pieces[i]).len() == 20
    }
}

/// The key `announce`.
pub open spec fn announce_key() -> Seq<u8> {
    seq![97u8, 110, 110, 111, 117, 110, 99, 101]
}

/// The key `info`.
pub open spec fn info_key() -> Seq<u8> {
    seq![105u8, 110, 102, 111]
}

/// The key `name`.
pub open spec fn name_key() -> Seq<u8> {
    seq![110u8, 97, 109, 101]
}

/// The key `length`.
pub open spec fn length_key() -> Seq<u8> {
    seq![108u8, 101, 110, 103, 116, 104]
}

/// The key `piece length`.
pub open spec fn piece_length_key() -> Seq<u8> {
    seq![112u8, 105, 101, 99, 101, 32, 108, 101, 110, 103, 116, 104]
}

/// The key `pieces`.
pub open spec fn pieces_key() -> Seq<u8> {
    seq![112u8, 105, 101, 99, 101, 115]
}

/// `b` cut into pieces of `size` bytes; what is left over at the end is
/// dropped.
pub open spec fn chunks(b: Seq<u8>, size: int) -> Seq<Seq<u8>> {
    Seq::new((b.len() as int / size) as nat, |i: int| b.subrange(size * i, size * i + size))
}

/// The positive integer under `key`; `TypeMismatch` where the integer is
/// zero or negative.
pub open spec fn positive_field(entries: Seq<(Seq<u8>, ValueView)>, key: Seq<u8>) -> Result<
    i64,
    ParseError,
> {
    match integer_field(entries, key) {
        Ok(n) => if n > 0 {
            Ok(n)
        } else {
            Err(ParseError::TypeMismatch)
        },
        Err(e) => Err(e),
    }
}

/// The piece hashes under the key `pieces`; `TypeMismatch` where the
/// length of the byte string is no multiple of twenty.
pub open spec fn pieces_field(entries: Seq<(Seq<u8>, ValueView)>) -> Result<
    Seq<Seq<u8>>,
    ParseError,
> {
    match bytes_field(entries, pieces_key()) {
        Ok(b) => if b.len() % 20 == 0 {
            Ok(chunks(b, 20))
        } else {
            Err(ParseError::TypeMismatch)
        },
        Err(e) => Err(e),
    }
}

/// The descriptor that the `info` dictionary and the announce address
/// give, the fields taken in the order name, length, piece length, pieces:
/// the first that is missing or of the wrong kind decides the error.
pub open spec fn info_spec(info: Seq<(Seq<u8>, ValueView)>, announce: Seq<char>) -> Result<
    MetadataView,
    ParseError,
> {
    match text_field(info, name_key()) {
        Err(e) => Err(e),
        Ok(name) => match positive_field(info, length_key()) {
            Err(e) => Err(e),
            Ok(length) => match positive_field(info, piece_length_key()) {
                Err(e) => Err(e),
                Ok(piece_length) => match pieces_field(info) {
                    Err(e) => Err(e),
                    Ok(pieces) => Ok(
                        MetadataView {
                            name,
                            piece_length: piece_length as int,
                            length: length as int,
                            pieces,
                            announce,
                            info_hash: sha1_digest(encode_value(ValueView::Dict(info))),
                        },
                    ),
                },
            },
        },
    }
}

/// What parsing `bytes` gives. The bytes have to be the encoding of a
/// dictionary (`MalformedEncoding` otherwise) with the text `announce` and
/// the dictionary `info`, looked at in this order and then as `info_spec`
/// says. The identifier is the digest of the canonical encoding of `info`.
pub open spec fn parse_spec(bytes: Seq<u8>) -> Result<MetadataView, ParseError> {
    match decode_spec(bytes) {
        Some(ValueView::Dict(top)) => match text_field(top, announce_key()) {
            Err(e) => Err(e),
            Ok(announce) => match dict_field(top, info_key()) {
                Err(e) => Err(e),
                Ok(info) => info_spec(info, announce),
            },
        },
        _ => Err(ParseError::MalformedEncoding),
    }
}

/// Cuts `b` into the piece hashes it holds.
fn split_pieces(b: &Vec<u8>) -> (pieces: Vec<Vec<u8>>)
    requires
        b@.len() % 20 == 0,
    ensures
        pieces@.len() == chunks(b@, 20).len(),
        forall|i: int| 0 <= i < pieces@.len() ==> (#[trigger] pieces@[i])@ == chunks(b@, 20)[i],
{
    let mut pieces: Vec<Vec<u8>> = Vec::new();
    let mut from: usize = 0;
    while from < b.len()
        invariant
            b@.len() % 20 == 0,
            from <= b@.len(),
            from == 20 * pieces@.len(),
            forall|k: int|
                0 <= k < pieces@.len() ==> (#[trigger] pieces@[k])@ == chunks(b@, 20)[k],
        decreases b@.len() - from,
    {
        let piece = slice_to_vec(slice_subrange(b.as_slice(), from, from + 20));
        pieces.push(piece);
        from += 20;
    }
    pieces
}

/// The positive integer that `dict` holds under `key`.
fn get_positive(dict: &Dict, key: &[u8]) -> (r: Result<i64, ParseError>)
    ensures
        r == positive_field(dict@, key@),
{
    match get_field_by_key(dict, key) {
        Err(e) => Err(e),
        Ok(v) => match v.as_integer() {
            Err(e) => Err(e),
            Ok(n) => if n > 0 {
                Ok(n)
            } else {
                Err(ParseError::TypeMismatch)
            },
        },
    }
}

/// The text that `dict` holds under `key`.
fn get_text(dict: &Dict, key: &[u8]) -> (r: Result<String, ParseError>)
    ensures
        match text_field(dict@, key@) {
            Ok(t) => r is Ok && r->Ok_0@ == t,
            Err(e) => r == Err::<String, ParseError>(e),
        },
{
    match get_field_by_key(dict, key) {
        Err(e) => Err(e),
        Ok(v) => v.as_text(),
    }
}

/// Parses the bytes of a metadata file: `Ok` with the descriptor exactly
/// where `parse_spec` gives one, and otherwise the error it gives.
pub fn parse_bencoded_torrent(bencoded_metadata: Vec<u8>) -> (r: Result<
    TorrentMetadata,
    ParseError,
>)
    ensures
        match parse_spec(bencoded_metadata@) {
            Ok(m) => r is Ok && r->Ok_0@ == m && m.wf(),
            Err(e) => r == Err::<TorrentMetadata, ParseError>(e),
        },
{
    let root = match decode(bencoded_metadata.as_slice()) {
        Ok(v) => v,
        Err(_) => {
            return Err(ParseError::MalformedEncoding);
        },
    };
    let top = match root.as_dict() {
        Ok(d) => d,
        Err(_) => {
            return Err(ParseError::MalformedEncoding);
        },
    };
    let announce_name: Vec<u8> = vec![97u8, 110, 110, 111, 117, 110, 99, 101];
    let info_name: Vec<u8> = vec![105u8, 110, 102, 111];
    let name_name: Vec<u8> = vec![110u8, 97, 109, 101];
    let length_name: Vec<u8> = vec![108u8, 101, 110, 103, 116, 104];
    let piece_length_name: Vec<u8> = vec![
        112u8,
        105,
        101,
        99,
        101,
        32,
        108,
        101,
        110,
        103,
        116,
        104,
    ];
    let pieces_name: Vec<u8> = vec![112u8, 105, 101, 99, 101, 115];
    proof {
        assert(announce_name@ =~= announce_key());
        assert(info_name@ =~= info_key());
        assert(name_name@ =~= name_key());
        assert(length_name@ =~= length_key());
        assert(piece_length_name@ =~= piece_length_key());
        assert(pieces_name@ =~= pieces_key());
    }
    let announce = match get_text(top, announce_name.as_slice()) {
        Ok(t) => t,
        Err(e) => {
            return Err(e);
        },
    };
    let info_value = match get_field_by_key(top, info_name.as_slice()) {
        Ok(v) => v,
        Err(e) => {
            return Err(e);
        },
    };
    let info = match info_value.as_dict() {
        Ok(d) => d,
        Err(e) => {
            return Err(e);
        },
    };
    let info_hash = compute_sha1_hash(info_value.encode());
    let name = match get_text(info, name_name.as_slice()) {
        Ok(t) => t,
        Err(e) => {
            return Err(e);
        },
    };
    let length = match get_positive(info, length_name.as_slice()) {
        Ok(n) => n,
        Err(e) => {
            return Err(e);
        },
    };
    let piece_length = match get_positive(info, piece_length_name.as_slice()) {
        Ok(n) => n,
        Err(e) => {
            return Err(e);
        },
    };
    let pieces_value = match get_field_by_key(info, pieces_name.as_slice()) {
        Ok(v) => v,
        Err(e) => {
            return Err(e);
        },
    };
    let pieces_bytes = match pieces_value.as_bytes() {
        Ok(b) => b,
        Err(e) => {
            return Err(e);
        },
    };
    if pieces_bytes.len() % PIECE_HASH_LEN != 0 {
        return Err(ParseError::TypeMismatch);
    }
    let pieces = split_pieces(pieces_bytes);
    let metadata = TorrentMetadata {
        info: TorrentMetadataInfo { pieces, piece_length, length, name },
        info_hash,
        announce,
    };
    proof {
        let m = parse_spec(bencoded_metadata@)->Ok_0;
        assert(metadata@.pieces =~= m.pieces);
    }
    Ok(metadata)
}

/// Whether the canonical file of the dictionary `top` holds its `info`
/// dictionary from `from` up to `to`, and the identifier of the file is
/// the digest of these bytes.
pub open spec fn info_stands_at(top: Seq<(Seq<u8>, ValueView)>, from: int, to: int) -> bool {
    let bytes = encode_value(ValueView::Dict(top));
    &&& 0 <= from <= to <= bytes.len()
    &&& decode_spec(bytes.subrange(from, to)) == Some(field_of(top, info_key())->Ok_0)
    &&& parse_spec(bytes)->Ok_0.info_hash == sha1_digest(bytes.subrange(from, to))
}

/// In a metadata file in canonical form the identifier is the digest of
/// the bytes of the `info` dictionary exactly as they stand in the file:
/// whoever hashes that part of the file gets the same identifier.
pub proof fn lemma_identifier_of_canonical(top: Seq<(Seq<u8>, ValueView)>)
    requires
        ValueView::Dict(top).wf(),
        parse_spec(encode_value(ValueView::Dict(top))) is Ok,
    ensures
        exists|from: int, to: int| info_stands_at(top, from, to),
{
    let bytes = encode_value(ValueView::Dict(top));
    lemma_decode_encode(ValueView::Dict(top));
    let info = field_of(top, info_key())->Ok_0;
    lemma_lookup_entry(top, info_key());
    let k = choose|k: int| 0 <= k < top.len() && #[trigger] top[k] == (info_key(), info);
    assert(top[k].1.wf());
    lemma_entry_value_place(top, k as nat);
    let from = entry_value_offset(top, k as nat);
    let to = from + encode_value(info).len();
    assert(bytes.subrange(from, to) == encode_value(info));
    lemma_decode_encode(info);
    assert(info_stands_at(top, from, to));
}

} // verus!
