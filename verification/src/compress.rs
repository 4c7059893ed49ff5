//! Compression for large bodies, through the zstd library.
//!
//! Two tiers use this: always-compressed types (state diff bodies, class
//! bodies) and conditionally compressed types (transactions whose serialized
//! form crosses [`COMPRESSION_THRESHOLD_BYTES`]). Decompression pre-allocates
//! a buffer of [`MAX_DECOMPRESSED_SIZE`] bytes and fails on anything that
//! would decode to more.

use vstd::prelude::*;

verus! {

/// The threshold above which conditionally compressed types are compressed.
pub const COMPRESSION_THRESHOLD_BYTES: usize = 384;

/// The largest size a compressed body may decompress to; the decoder
/// pre-allocates a buffer of this bound.
pub const MAX_DECOMPRESSED_SIZE: usize = 1 << 28;

/// What zstd decompression, capped at `cap` output bytes, yields on `c`:
/// the decoded block, or `None` on a malformed frame or one over the cap.
pub uninterp spec fn zstd_inflate(c: Seq<u8>, cap: nat) -> Option<Seq<u8>>;

/// Relies on `zstd::bulk::decompress`: the decoded block is a function of
/// the compressed bytes and the capacity bound alone.
#[verifier::external_body]
pub fn decompress(data: &Vec<u8>) -> (r: Option<Vec<u8>>)
    ensures
        match zstd_inflate(data@, MAX_DECOMPRESSED_SIZE as nat) {
            Some(s) => r matches Some(v) && v@ == s,
            None => r is None,
        },
{
    match zstd::bulk::decompress(data.as_slice(), MAX_DECOMPRESSED_SIZE) {
        Ok(v) => Some(v),
        Err(_) => None,
    }
}

/// Relies on `zstd::bulk::compress`: compression is lossless, so its output
/// decompresses back to its input whenever the capacity bound admits it.
#[verifier::external_body]
pub fn compress(data: &Vec<u8>) -> (r: Option<Vec<u8>>)
    ensures
        match r {
            Some(c) => data@.len() <= MAX_DECOMPRESSED_SIZE ==> zstd_inflate(
                c@,
                MAX_DECOMPRESSED_SIZE as nat,
            ) == Some(data@),
            None => true,
        },
{
    match zstd::bulk::compress(data.as_slice(), zstd::DEFAULT_COMPRESSION_LEVEL) {
        Ok(v) => Some(v),
        Err(_) => None,
    }
}

} // verus!
