//! Per-record compression. Every record of the content blob, and the
//! whole index map, is an independently compressed raw deflate stream,
//! so any single record can be decoded from its byte range alone.

use vstd::prelude::*;

use crate::error::IgrepError;
use std::io::Read;
use std::io::Write;

verus! {

/// What the deflate compressor emits for the given bytes.
pub uninterp spec fn deflate_of(b: Seq<u8>) -> Seq<u8>;

/// What raw deflate decompression yields for the given bytes: the bytes
/// of the stream, or nothing when the input is not a deflate stream.
pub uninterp spec fn inflate_of(b: Seq<u8>) -> Option<Seq<u8>>;

/// Relies on flate2's write::DeflateEncoder at the default level: the
/// emitted raw deflate stream is a function of the input bytes alone,
/// decompressing it yields the input back, and compressing into a
/// memory buffer cannot fail (errors come only from the wrapped writer,
/// and a byte vector's writes never err).
#[verifier::external_body]
pub(crate) fn deflate_bytes(b: &[u8]) -> (r: Result<Vec<u8>, IgrepError>)
    ensures
        r is Ok,
        r matches Ok(v) ==> v@ == deflate_of(b@) && inflate_of(v@) == Some(b@),
{
    let e = flate2::write::DeflateEncoder::new(Vec::new(), flate2::Compression::default());
    let mut e = e;
    match e.write_all(b).and_then(|_| e.finish()) {
        Ok(v) => Ok(v),
        Err(_) => Err(IgrepError::IoError),
    }
}

/// Relies on flate2's read::DeflateDecoder: reading it to the end yields
/// the decompressed bytes, a function of the input alone; a malformed
/// stream is reported as an error.
#[verifier::external_body]
pub(crate) fn inflate_bytes(b: &[u8]) -> (r: Result<Vec<u8>, IgrepError>)
    ensures
        r matches Ok(v) ==> inflate_of(b@) == Some(v@),
        r is Err ==> inflate_of(b@) is None,
{
    let mut d = flate2::read::DeflateDecoder::new(b);
    let mut buffer = Vec::new();
    match d.read_to_end(&mut buffer) {
        Ok(_) => Ok(buffer),
        Err(_) => Err(IgrepError::CorruptIndex),
    }
}

} // verus!
