//! Content-addressable persistence, up to the filesystem's edge.
//!
//! Packed bytes are hashed with SHA-1; the 40 lowercase hex digits of the
//! digest name the object, the first two select the storage subdirectory
//! and the remaining 38 the file, whose content is the zlib deflate stream
//! of the packed bytes. `plan_object_write` computes all of that; writing
//! the file, and reading it back, is the caller's input/output. The read
//! side inflates a stored stream and parses it.

use vstd::prelude::*;

use std::io::Read;
use std::io::Write;

use crate::hexcode::{bytes_to_hex, hex_encode, is_hex_lower_seq, lemma_bytes_to_hex_props};
use crate::objects::{spec_pack_blob, spec_pack_tree, GitObject, GitObjectView, TreeEntryView};
use crate::order::{distinct_keys, lemma_canonical_unique, sorted_entries};
use crate::parse::{lemma_blob_round_trip, parse_object, spec_parse_object, ParseError};
use crate::raw::copy_range;

verus! {

/// What the SHA-1 digest of a byte string is: a function of the bytes
/// alone, 20 bytes long.
pub uninterp spec fn sha1_of(bytes: Seq<u8>) -> Seq<u8>;

/// What the zlib deflate stream of a byte string is, at maximum
/// compression: a function of the bytes alone for the linked
/// implementation.
pub uninterp spec fn deflate_of(bytes: Seq<u8>) -> Seq<u8>;

/// Relies on `sha1::Sha1` via the `Digest` trait: the digest is 20 bytes
/// and depends on the input bytes alone.
#[verifier::external_body]
fn sha1_digest(bytes: &Vec<u8>) -> (r: Vec<u8>)
    ensures
        r@ == sha1_of(bytes@),
        r@.len() == 20,
{
    let mut h = <sha1::Sha1 as sha1::Digest>::new();
    sha1::Digest::update(&mut h, bytes.as_slice());
    sha1::Digest::finalize(h).to_vec()
}

/// Relies on `flate2::write::ZlibEncoder` at `Compression::best`: the
/// stream is a function of the input bytes, and writing into a vector
/// cannot fail.
#[verifier::external_body]
fn zlib_compress(bytes: &Vec<u8>) -> (r: Vec<u8>)
    ensures
        r@ == deflate_of(bytes@),
{
    let mut enc = flate2::write::ZlibEncoder::new(Vec::new(), flate2::Compression::best());
    enc.write_all(bytes.as_slice()).unwrap();
    enc.finish().unwrap()
}

/// Relies on `flate2::read::ZlibDecoder`: inflating a deflate stream gives
/// back exactly the bytes that were compressed.
#[verifier::external_body]
fn zlib_decompress(bytes: &Vec<u8>) -> (r: Option<Vec<u8>>)
    ensures
        r is None ==> (forall|p: Seq<u8>| bytes@ != deflate_of(p)),
        r matches Some(d) ==> (forall|p: Seq<u8>| bytes@ == deflate_of(p) ==> d@ == p),
{
    let mut out = Vec::new();
    let mut dec = flate2::read::ZlibDecoder::new(bytes.as_slice());
    match dec.read_to_end(&mut out) {
        Ok(_) => Some(out),
        Err(_) => None,
    }
}

/// Why a stored stream could not be read back.
#[derive(Clone, Copy, PartialEq, Eq, Debug, Structural)]
pub enum StoreError {
    CorruptObject,
}

/// Why a stored object could not be decoded: a corrupt stream, or packed
/// bytes the codec rejects.
#[derive(Clone, Copy, PartialEq, Eq, Debug, Structural)]
pub enum ReadError {
    Corrupt,
    Parse(ParseError),
}

/// Everything one object write needs: the content hash, where the file
/// goes, and what goes into it.
pub struct StoredObject {
    pub hash: Vec<u8>,
    pub dir_name: Vec<u8>,
    pub file_name: Vec<u8>,
    pub zdata: Vec<u8>,
}

/// `s` is the write plan for the packed bytes `packed`.
pub open spec fn is_plan_for(s: StoredObject, packed: Seq<u8>) -> bool {
    &&& s.hash@ == bytes_to_hex(sha1_of(packed))
    &&& s.hash@.len() == 40
    &&& is_hex_lower_seq(s.hash@)
    &&& s.dir_name@ == s.hash@.subrange(0, 2)
    &&& s.file_name@ == s.hash@.subrange(2, 40)
    &&& s.zdata@ == deflate_of(packed)
}

/// Hash and compress packed bytes. The hash is the lowercase hex SHA-1 of
/// the bytes before compression; its first two digits name the
/// subdirectory, the remaining 38 the file; the file's content is the
/// deflate stream.
pub fn plan_object_write(packed: &Vec<u8>) -> (s: StoredObject)
    ensures
        is_plan_for(s, packed@),
{
    let digest = sha1_digest(packed);
    proof {
        lemma_bytes_to_hex_props(digest@);
    }
    let hash = hex_encode(&digest);
    let dir_name = copy_range(&hash, 0, 2);
    let file_name = copy_range(&hash, 2, 40);
    let zdata = zlib_compress(packed);
    StoredObject { hash, dir_name, file_name, zdata }
}

/// Inflate a stored object file's contents back to packed bytes. On the
/// stream that `plan_object_write` produced for `packed`, this returns
/// exactly `packed`; a malformed stream is a corrupt object.
pub fn read_stored_bytes(zdata: &Vec<u8>) -> (r: Result<Vec<u8>, StoreError>)
    ensures
        forall|p: Seq<u8>| zdata@ == deflate_of(p) ==> (r matches Ok(d) && d@ == p),
        r matches Err(e) ==> e == StoreError::CorruptObject,
{
    match zlib_decompress(zdata) {
        Some(d) => Ok(d),
        None => Err(StoreError::CorruptObject),
    }
}

/// The whole read side: inflate a stored stream, then parse the packed
/// bytes. On the stream stored for a packed blob with payload `d`, the
/// result is that blob again: the round trip of the store.
pub fn decode_stored_object(zdata: &Vec<u8>) -> (r: Result<GitObject, ReadError>)
    ensures
        forall|p: Seq<u8>|
            zdata@ == deflate_of(p) ==> (match spec_parse_object(p) {
                Ok(ov) => r matches Ok(o) && o@ == ov,
                Err(pe) => r == Err::<GitObject, ReadError>(ReadError::Parse(pe)),
            }),
        forall|d: Seq<u8>|
            d.len() <= usize::MAX && zdata@ == deflate_of(spec_pack_blob(d)) ==> (r matches Ok(o)
                && o@ == GitObjectView::Blob(d)),
{
    proof {
        assert forall|d: Seq<u8>| d.len() <= usize::MAX implies spec_parse_object(
            spec_pack_blob(d),
        ) == Ok::<GitObjectView, ParseError>(GitObjectView::Blob(d)) by {
            lemma_blob_round_trip(d);
        }
    }
    let raw = match zlib_decompress(zdata) {
        Some(d) => d,
        None => {
            return Err(ReadError::Corrupt);
        },
    };
    match parse_object(&raw) {
        Ok(o) => Ok(o),
        Err(e) => Err(ReadError::Parse(e)),
    }
}

/// Content addressing is deterministic: identical packed bytes always
/// yield the identical hash, storage path and stream. This, not any
/// explicit check, is the store's only deduplication mechanism.
pub proof fn lemma_store_deterministic(b1: Seq<u8>, b2: Seq<u8>)
    requires
        b1 == b2,
    ensures
        sha1_of(b1) == sha1_of(b2),
        deflate_of(b1) == deflate_of(b2),
        bytes_to_hex(sha1_of(b1)) == bytes_to_hex(sha1_of(b2)),
{
}

/// Packing the same logical tree twice gives byte-identical output and an
/// identical hash: two sorted entry sequences holding the same entries,
/// with pairwise distinct sort keys, pack to the same bytes — the shape
/// every tree has after `TreeObject::pack`.
pub proof fn lemma_tree_store_deterministic(x: Seq<TreeEntryView>, y: Seq<TreeEntryView>)
    requires
        sorted_entries(x),
        sorted_entries(y),
        distinct_keys(x),
        x.to_multiset() == y.to_multiset(),
    ensures
        spec_pack_tree(x) == spec_pack_tree(y),
        sha1_of(spec_pack_tree(x)) == sha1_of(spec_pack_tree(y)),
{
    lemma_canonical_unique(x, y);
}

} // verus!
