//! Compression of serialised chunk data for storage.

use vstd::prelude::*;
use miniz_oxide::deflate::compress_to_vec;
use miniz_oxide::inflate::decompress_to_vec;

verus! {

/// Compression level used for stored chunks.
pub const STORAGE_LEVEL: u8 = 8;

/// The raw deflate stream of `data` at compression level `level`.
pub uninterp spec fn deflated(data: Seq<u8>, level: u8) -> Seq<u8>;

/// The bytes that the raw deflate stream `data` decodes to, or `None` when
/// it is not a complete, valid stream.
pub uninterp spec fn inflated(data: Seq<u8>) -> Option<Seq<u8>>;

/// Relies on `miniz_oxide::deflate::compress_to_vec`: a raw deflate stream
/// that depends on the input and the level alone.
#[verifier::external_body]
fn deflate(data: &[u8], level: u8) -> (r: Vec<u8>)
    ensures
        r@ == deflated(data@, level),
{
    compress_to_vec(data, level)
}

/// Relies on `miniz_oxide::inflate::decompress_to_vec`: the decoded bytes, or
/// an error status when the stream is invalid or truncated.
#[verifier::external_body]
fn inflate(data: &[u8]) -> (r: Option<Vec<u8>>)
    ensures
        r is Some <==> inflated(data@) is Some,
        r matches Some(v) ==> inflated(data@) == Some(v@),
{
    match decompress_to_vec(data) {
        Ok(v) => Some(v),
        Err(_) => None,
    }
}

/// Compresses serialised chunk data for storage.
pub fn compress_chunk_bytes(data: &Vec<u8>) -> (r: Vec<u8>)
    ensures
        r@ == deflated(data@, STORAGE_LEVEL),
{
    deflate(data.as_slice(), STORAGE_LEVEL)
}

/// Decompresses stored chunk data; `None` when the bytes are not a valid
/// compressed stream.
pub fn decompress_chunk_bytes(data: &Vec<u8>) -> (r: Option<Vec<u8>>)
    ensures
        r is Some <==> inflated(data@) is Some,
        r matches Some(v) ==> inflated(data@) == Some(v@),
{
    inflate(data.as_slice())
}

} // verus!
