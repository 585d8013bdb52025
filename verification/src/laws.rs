//! What reading gives back of what writing wrote.

use vstd::prelude::*;
use vstd::utf8::*;

use crate::crypto::decrypt_outcome;
use crate::crypto::sealable;
use crate::crypto::sealed_bytes;
use crate::format::header_bytes;
use crate::format::header_outcome;
use crate::format::index_bytes;
use crate::format::index_aad_bytes;
use crate::format::index_outcome;
use crate::format::lemma_header_roundtrip;
use crate::format::lemma_records_roundtrip;
use crate::format::magic_bytes;
use crate::format::record_wf;
use crate::reader::asset_in_file;
use crate::reader::asset_read;
use crate::reader::asset_region;
use crate::reader::index_read;
use crate::reader::decoded;
use crate::codec::blake3_digest;
use crate::reader::is_compressed;
use crate::codec::lz4_frame_encode;
use crate::codec::lz4_frame_encodes;
use crate::reader::MAX_DECOMPRESSED_LEN;
use crate::types::AssetView;
use crate::types::Errors;
use crate::types::HeaderView;
use crate::types::COMPRESSED_BIT;
use crate::types::HEADER_LEN;
use crate::types::VERSION;
use crate::writer::asset_write;
use crate::writer::index_write;
use crate::writer::overwrite;
use crate::writer::payload_produced;
use crate::writer::stored_payload;
use crate::writer::written_record;

verus! {

/// The header that `write_index` leaves at the start of an archive.
pub open spec fn final_header(old_out: Seq<u8>, assets: Seq<AssetView>, salt: Seq<u8>) -> HeaderView {
    HeaderView {
        magic: magic_bytes(),
        version: VERSION,
        assets_count: assets.len() as u32,
        salt,
        index_start: old_out.len() as u64,
        index_size: (index_bytes(assets).len() + 28) as u32,
    }
}

/// After `write_index` has written the index of `assets` (and the final
/// header at offset 0, over a header placeholder), reading the header
/// gives the header that locates that index, and every result that
/// reading the index with the same key may give is `assets`.
pub proof fn law_index_read_after_write(
    old_out: Seq<u8>,
    assets: Seq<AssetView>,
    salt: Seq<u8>,
    key: Seq<u8>,
    nonce: Seq<u8>,
    out: Seq<u8>,
    r: Result<Seq<AssetView>, Errors>,
)
    requires
        salt.len() == 32,
        nonce.len() == 12,
        HEADER_LEN <= old_out.len() <= u64::MAX,
        assets.len() <= u32::MAX,
        index_bytes(assets).len() + 28 <= u32::MAX,
        forall|i: int| 0 <= i < assets.len() ==> record_wf(#[trigger] assets[i]),
        index_write(old_out, 0, VERSION, assets, salt, key, nonce, out, Ok(())),
        index_read(out, final_header(old_out, assets, salt), key, r),
    ensures
        header_outcome(out) == Ok::<HeaderView, Errors>(final_header(old_out, assets, salt)),
        r == Ok::<Seq<AssetView>, Errors>(assets),
{
    let count: u32 = assets.len() as u32;
    let index_start: u64 = old_out.len() as u64;
    let plain = index_bytes(assets);
    let h = final_header(old_out, assets, salt);
    let aad = crate::format::index_aad_bytes(VERSION, count, salt, index_start);
    let sealed = sealed_bytes(key, nonce, plain, aad);
    let hb = header_bytes(VERSION, count, salt, index_start, sealed.len() as u32);
    lemma_header_roundtrip(VERSION, count, salt, index_start, sealed.len() as u32, out.subrange(54, out.len() as int));
    assert(out =~= hb + out.subrange(54, out.len() as int));
    assert(out.subrange(h.index_start as int, h.index_start + h.index_size) =~= sealed);
    lemma_records_roundtrip(assets, seq![]);
    assert(plain + seq![] =~= plain);
}

/// After `write_asset` has stored `data` under `id` and returned record
/// `a`, every result that reading `a` with the same key may give, from
/// any later state of the archive in which the asset's bytes are
/// unchanged, is `data`.
pub proof fn law_asset_read_after_write(
    old_out: Seq<u8>,
    id: Seq<char>,
    data: Seq<u8>,
    compress: bool,
    key: Seq<u8>,
    nonce: Seq<u8>,
    out: Seq<u8>,
    a: AssetView,
    file: Seq<u8>,
    r: Result<Seq<u8>, Errors>,
)
    requires
        nonce.len() == 12,
        old_out.len() <= u64::MAX,
        data.len() <= u32::MAX,
        stored_payload(data, compress).len() + 28 <= u32::MAX,
        compress ==> data.len() <= MAX_DECOMPRESSED_LEN,
        asset_write(old_out, id, data, compress, key, nonce, out, Ok(a)),
        out.len() <= file.len(),
        file.subrange(old_out.len() as int, out.len() as int) == out.subrange(
            old_out.len() as int,
            out.len() as int,
        ),
        asset_read(file, a, key, r),
    ensures
        r == Ok::<Seq<u8>, Errors>(data),
{
    let payload = stored_payload(data, compress);
    let sealed = sealed_bytes(key, nonce, payload, encode_utf8(id));
    assert(file.subrange(a.start as int, a.start + a.size) =~= sealed);
    lemma_stored_asset_reads_back(id, data, compress, key, nonce, a, file, r);
}

/// An asset whose record is the one `write_asset` returns and whose bytes
/// in `file` are the stored nonce and ciphertext reads back as its data.
pub proof fn lemma_stored_asset_reads_back(
    id: Seq<char>,
    data: Seq<u8>,
    compress: bool,
    key: Seq<u8>,
    nonce: Seq<u8>,
    a: AssetView,
    file: Seq<u8>,
    r: Result<Seq<u8>, Errors>,
)
    requires
        nonce.len() == 12,
        data.len() <= u32::MAX,
        stored_payload(data, compress).len() + 28 <= u32::MAX,
        compress ==> data.len() <= MAX_DECOMPRESSED_LEN,
        payload_produced(data, compress),
        sealable(stored_payload(data, compress)),
        sealed_bytes(key, nonce, stored_payload(data, compress), encode_utf8(id)).len()
            == stored_payload(data, compress).len() + 28,
        a == written_record(id, data, compress, a.start as nat),
        asset_in_file(file.len(), a),
        asset_region(file, a) == sealed_bytes(key, nonce, stored_payload(data, compress), encode_utf8(id)),
        asset_read(file, a, key, r),
    ensures
        r == Ok::<Seq<u8>, Errors>(data),
{
    assert(is_compressed(a) == compress) by {
        assert(COMPRESSED_BIT & COMPRESSED_BIT == COMPRESSED_BIT) by (bit_vector);
        assert(0u8 & COMPRESSED_BIT != COMPRESSED_BIT) by (bit_vector);
    }
    if compress {
        let p = stored_payload(data, compress);
        assert(lz4_frame_encode(data) == p && lz4_frame_encodes(data));
        assert(decoded(p, a.size_expected) == data);
    }
}

/// After `write_index` has written the index of `assets` and the final
/// header at `header_pos`, with the header and the index not overlapping,
/// the stored index is the nonce and ciphertext of the encoded records
/// under the header fields written with them, the header at `header_pos`
/// is that header, and every result of decrypting the stored index with
/// the same key and those header fields is the encoded records.
pub proof fn law_index_sealed_after_write(
    old_out: Seq<u8>,
    header_pos: u64,
    version: u16,
    assets: Seq<AssetView>,
    salt: Seq<u8>,
    key: Seq<u8>,
    nonce: Seq<u8>,
    out: Seq<u8>,
    r: Result<Seq<u8>, Errors>,
)
    requires
        salt.len() == 32,
        nonce.len() == 12,
        old_out.len() <= u64::MAX,
        index_write(old_out, header_pos, version, assets, salt, key, nonce, out, Ok(())),
        header_pos + HEADER_LEN <= old_out.len() || header_pos >= old_out.len() + index_bytes(assets).len()
            + 28,
        decrypt_outcome(
            key,
            out.subrange(old_out.len() as int, (old_out.len() + index_bytes(assets).len() + 28) as int),
            index_aad_bytes(version, assets.len() as u32, salt, old_out.len() as u64),
            r,
        ),
    ensures
        out.subrange(old_out.len() as int, (old_out.len() + index_bytes(assets).len() + 28) as int) == sealed_bytes(
            key,
            nonce,
            index_bytes(assets),
            index_aad_bytes(version, assets.len() as u32, salt, old_out.len() as u64),
        ),
        out.subrange(header_pos as int, header_pos + HEADER_LEN) == header_bytes(
            version,
            assets.len() as u32,
            salt,
            old_out.len() as u64,
            (index_bytes(assets).len() + 28) as u32,
        ),
        r == Ok::<Seq<u8>, Errors>(index_bytes(assets)),
{
    let count: u32 = assets.len() as u32;
    let index_start: u64 = old_out.len() as u64;
    let plain = index_bytes(assets);
    let aad = index_aad_bytes(version, count, salt, index_start);
    let sealed = sealed_bytes(key, nonce, plain, aad);
    let hb = header_bytes(version, count, salt, index_start, sealed.len() as u32);
    assert(hb.len() == HEADER_LEN) by {
        lemma_header_roundtrip(version, count, salt, index_start, sealed.len() as u32, seq![]);
    }
    assert(out.subrange(old_out.len() as int, (old_out.len() + sealed.len()) as int) =~= sealed);
    assert(out.subrange(header_pos as int, header_pos + HEADER_LEN) =~= hb);
}

/// The record that writing an asset returns describes that write: it
/// carries the id (and the id's byte length, when it fits the field),
/// starts where the archive ended, spans exactly the appended bytes (when
/// their count fits the field), declares the data's own length (when it
/// fits the field), whether or not the data was compressed, holds the
/// data's BLAKE3 digest, and is marked compressed exactly when
/// compression was asked for; the bytes before it are left as they were.
pub proof fn law_written_record_describes_write(
    old_out: Seq<u8>,
    id: Seq<char>,
    data: Seq<u8>,
    compress: bool,
    key: Seq<u8>,
    nonce: Seq<u8>,
    new_out: Seq<u8>,
    a: AssetView,
)
    requires
        old_out.len() <= u64::MAX,
        asset_write(old_out, id, data, compress, key, nonce, new_out, Ok(a)),
    ensures
        a.id == id,
        encode_utf8(id).len() <= u16::MAX ==> a.id_len == encode_utf8(id).len(),
        a.start == old_out.len(),
        new_out.len() >= old_out.len() + 28,
        new_out.len() - old_out.len() <= u32::MAX ==> a.start + a.size == new_out.len(),
        new_out.subrange(0, old_out.len() as int) == old_out,
        data.len() <= u32::MAX ==> a.size_expected == data.len(),
        a.hash == blake3_digest(data),
        is_compressed(a) == compress,
{
    assert(new_out.subrange(0, old_out.len() as int) =~= old_out);
    assert(is_compressed(a) == compress) by {
        assert(COMPRESSED_BIT & COMPRESSED_BIT == COMPRESSED_BIT) by (bit_vector);
        assert(0u8 & COMPRESSED_BIT != COMPRESSED_BIT) by (bit_vector);
    }
}

} // verus!
