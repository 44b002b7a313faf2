//! Digests, hex rendering and zlib compression, as the object store uses them.
use vstd::prelude::*;
use flate2::read::ZlibDecoder;
use flate2::write::ZlibEncoder;
use flate2::Compression;
use sha1::{Digest, Sha1};
use std::io::{Read, Write};

verus! {

/// The 20-byte SHA-1 digest of a byte string.
pub uninterp spec fn sha1_of(data: Seq<u8>) -> Seq<u8>;

/// The zlib stream (default level) that compresses a byte string.
pub uninterp spec fn zlib_of(data: Seq<u8>) -> Seq<u8>;

/// What a zlib stream decompresses to, or `None` when it is not a valid stream.
pub uninterp spec fn inflate_of(data: Seq<u8>) -> Option<Seq<u8>>;

/// The lowercase hex digit of a value below 16.
pub open spec fn hex_digit(v: int) -> u8 {
    if v < 10 {
        (48 + v) as u8
    } else {
        (87 + v) as u8
    }
}

/// Lowercase hex rendering: two digits per byte, high nibble first.
pub open spec fn hex_of(b: Seq<u8>) -> Seq<u8>
    decreases b.len(),
{
    if b.len() == 0 {
        Seq::empty()
    } else {
        seq![hex_digit(b[0] as int / 16), hex_digit(b[0] as int % 16)] + hex_of(b.drop_first())
    }
}

/// Relies on sha1's `Sha1` (`Digest::new`, `update`, `finalize`): the SHA-1
/// digest of the input, whose output size is 20 bytes.
#[verifier::external_body]
pub(crate) fn sha1_digest(data: &[u8]) -> (r: Vec<u8>)
    ensures
        r@ == sha1_of(data@),
        r@.len() == 20,
{
    let mut hasher = Sha1::new();
    hasher.update(data);
    hasher.finalize().to_vec()
}

/// Relies on hex::encode: two lowercase hex digits per byte, in order.
#[verifier::external_body]
pub(crate) fn hex_encode(data: &[u8]) -> (r: Vec<u8>)
    ensures
        r@ == hex_of(data@),
{
    hex::encode(data).into_bytes()
}

/// Relies on flate2's `ZlibEncoder` at the default level writing into a
/// `Vec`, which cannot fail; zlib is lossless, so the stream inflates back
/// to the input.
#[verifier::external_body]
pub(crate) fn zlib_compress(data: &[u8]) -> (r: Vec<u8>)
    ensures
        r@ == zlib_of(data@),
        inflate_of(r@) == Some(data@),
{
    let mut encoder = ZlibEncoder::new(Vec::new(), Compression::default());
    encoder.write_all(data).unwrap();
    encoder.finish().unwrap()
}

/// Relies on flate2's `ZlibDecoder` and `read_to_end`: the decompressed
/// bytes, or `None` where the input is not a valid zlib stream.
#[verifier::external_body]
pub(crate) fn zlib_decompress(data: &[u8]) -> (r: Option<Vec<u8>>)
    ensures
        match r {
            Some(v) => inflate_of(data@) == Some(v@),
            None => inflate_of(data@) is None,
        },
{
    let mut decoder = ZlibDecoder::new(data);
    let mut out = Vec::new();
    match decoder.read_to_end(&mut out) {
        Ok(_) => Some(out),
        Err(_) => None,
    }
}

} // verus!
