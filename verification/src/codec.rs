//! Content hashing (BLAKE3) and compression (LZ4 frames) of asset data.

use vstd::prelude::*;

use std::io::Read;
use std::io::Write;

verus! {

#[verifier::external_type_specification]
#[verifier::external_body]
pub struct ExIoError(std::io::Error);

/// The 32-byte BLAKE3 digest of `data`.
pub uninterp spec fn blake3_digest(data: Seq<u8>) -> Seq<u8>;

/// The LZ4 frame that the `lz4` encoder, built with compression level 4
/// and otherwise default settings, writes for `data`.
pub uninterp spec fn lz4_frame_encode(data: Seq<u8>) -> Seq<u8>;

/// Whether the `lz4` encoder (level 4, otherwise default settings)
/// completes without an error on `data`.
pub uninterp spec fn lz4_frame_encodes(data: Seq<u8>) -> bool;

/// The first at most `limit` bytes that the `lz4` decoder yields when it
/// reads the frame `frame`.
pub uninterp spec fn lz4_frame_decode(frame: Seq<u8>, limit: nat) -> Seq<u8>;

/// Whether reading at most `limit` bytes from the `lz4` decoder over
/// `frame` completes without an error.
pub uninterp spec fn lz4_frame_decodes(frame: Seq<u8>, limit: nat) -> bool;

/// Calls `blake3::hash` and returns the bytes of the digest.
/// Claimed: the result is the BLAKE3 digest of `data`.
#[verifier::external_body]
pub(crate) fn blake3_hash(data: &[u8]) -> (r: [u8; 32])
    ensures
        r@ == blake3_digest(data@),
{
    *blake3::hash(data).as_bytes()
}

/// Compresses `data` into one LZ4 frame with `lz4::EncoderBuilder` at
/// level 4, writing into a `Vec`. Claimed: whether it succeeds, and the
/// frame it produces, depend on `data` alone (the encoder is
/// deterministic).
#[verifier::external_body]
pub(crate) fn lz4_compress(data: &[u8]) -> (r: Result<Vec<u8>, std::io::Error>)
    ensures
        r is Ok <==> lz4_frame_encodes(data@),
        r matches Ok(c) ==> c@ == lz4_frame_encode(data@),
{
    let mut encoder = lz4::EncoderBuilder::new().level(4).build(Vec::new())?;
    encoder.write_all(data)?;
    let (compressed, result) = encoder.finish();
    result?;
    Ok(compressed)
}

/// Reads at most `limit` bytes from an `lz4::Decoder` over `frame`.
/// Claimed: whether it succeeds, and the bytes it returns, depend on
/// `frame` and `limit` alone; it returns at most `limit` bytes (std's
/// `Read::take`); and a frame the encoder wrote for a message decodes
/// without an error, to that message when it is shorter than `limit`
/// (LZ4 is lossless, as the crate's README and its compress/decompress
/// sample show).
#[verifier::external_body]
pub(crate) fn lz4_decompress_limited(frame: &[u8], limit: u64) -> (r: Result<Vec<u8>, std::io::Error>)
    ensures
        r is Ok <==> lz4_frame_decodes(frame@, limit as nat),
        (exists|m: Seq<u8>| #[trigger] lz4_frame_encode(m) == frame@ && lz4_frame_encodes(m)) ==> r is Ok,
        r matches Ok(d) ==> d@ == lz4_frame_decode(frame@, limit as nat),
        r matches Ok(d) ==> d@.len() <= limit,
        r matches Ok(d) ==> forall|m: Seq<u8>|
            #[trigger] lz4_frame_encode(m) == frame@ && lz4_frame_encodes(m) && m.len() < limit ==> d@ == m,
{
    let decoder = lz4::Decoder::new(frame)?;
    let mut limited = decoder.take(limit);
    let mut decompressed = Vec::new();
    limited.read_to_end(&mut decompressed)?;
    Ok(decompressed)
}

} // verus!
