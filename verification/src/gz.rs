//! Decompression of the gzip container around a source document.

use vstd::prelude::*;

use crate::error::SchematicError;

verus! {

/// What gzip decompression yields for a byte stream: the decompressed
/// bytes, or nothing when the stream is not a well-formed gzip stream.
pub uninterp spec fn gunzip_of(bytes: Seq<u8>) -> Option<Seq<u8>>;

/// Relies on flate2's `GzDecoder` over `read_to_end`: decompressing a
/// byte slice is a function of the bytes alone, and a malformed stream
/// fails cleanly.
#[verifier::external_body]
pub fn decompress_schematic(bytes: &[u8]) -> (r: Result<Vec<u8>, SchematicError>)
    ensures
        (r matches Ok(out) ==> gunzip_of(bytes@) == Some(out@)),
        (r matches Err(e) ==> gunzip_of(bytes@) is None && e == SchematicError::IoFailure),
{
    let mut out = Vec::new();
    let mut decoder = flate2::read::GzDecoder::new(bytes);
    match std::io::Read::read_to_end(&mut decoder, &mut out) {
        Ok(_) => Ok(out),
        Err(_) => Err(SchematicError::IoFailure),
    }
}

} // verus!
