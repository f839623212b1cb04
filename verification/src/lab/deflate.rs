//! Deflate as a byte-stream stage after an image-aware one, through `flate2`.

use std::io::Read;
use std::io::Write;
use vstd::prelude::*;

verus! {

/// Why a Deflate stage failed.
#[derive(Debug, Clone, Copy, PartialEq, Eq, Structural)]
pub enum DeflateError {
    /// The compressor reported an I/O error.
    Compress,
    /// The bytes are not a complete raw Deflate stream.
    Malformed,
}

/// What `flate2`'s raw Deflate encoder at best compression makes of `data`, or `None` where it
/// reports an error. A function of the bytes alone.
pub uninterp spec fn deflated(data: Seq<u8>) -> Option<Seq<u8>>;

/// What `flate2`'s raw Deflate decoder reads out of `data`, or `None` where it reports an error.
/// A function of the bytes alone.
pub uninterp spec fn inflated(data: Seq<u8>) -> Option<Seq<u8>>;

/// Compresses with `flate2::write::DeflateEncoder` at `Compression::best()` into a `Vec`.
/// Claims only that the outcome is [`deflated`] of the input.
#[verifier::external_body]
fn flate2_deflate(data: &[u8]) -> (r: Option<Vec<u8>>)
    ensures
        r.is_some() == deflated(data@).is_some(),
        r matches Some(v) ==> deflated(data@) == Some(v@),
{
    let mut e = flate2::write::DeflateEncoder::new(Vec::new(), flate2::Compression::best());
    match e.write_all(data) {
        Ok(()) => {},
        Err(_) => return None,
    }
    e.finish().ok()
}

/// Decompresses with `flate2::read::DeflateDecoder`, reading to the end. Claims only that the
/// outcome is [`inflated`] of the input.
#[verifier::external_body]
fn flate2_inflate(data: &[u8]) -> (r: Option<Vec<u8>>)
    ensures
        r.is_some() == inflated(data@).is_some(),
        r matches Some(v) ==> inflated(data@) == Some(v@),
{
    let mut out = Vec::new();
    match flate2::read::DeflateDecoder::new(data).read_to_end(&mut out) {
        Ok(_) => Some(out),
        Err(_) => None,
    }
}

/// Raw Deflate at the best compression level.
pub fn deflate(data: &[u8]) -> (r: Result<Vec<u8>, DeflateError>)
    ensures
        match deflated(data@) {
            Some(z) => r matches Ok(v) && v@ == z,
            None => r == Err::<Vec<u8>, DeflateError>(DeflateError::Compress),
        },
{
    match flate2_deflate(data) {
        Some(v) => Ok(v),
        None => Err(DeflateError::Compress),
    }
}

/// Reverses [`deflate`].
pub fn inflate(data: &[u8]) -> (r: Result<Vec<u8>, DeflateError>)
    ensures
        match inflated(data@) {
            Some(z) => r matches Ok(v) && v@ == z,
            None => r == Err::<Vec<u8>, DeflateError>(DeflateError::Malformed),
        },
{
    match flate2_inflate(data) {
        Some(v) => Ok(v),
        None => Err(DeflateError::Malformed),
    }
}

} // verus!
