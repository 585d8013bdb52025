//! Writing an archive into an in-memory buffer: a header placeholder,
//! the encrypted assets, then the encrypted index and the final header.

use vstd::prelude::*;
use vstd::bytes::*;
use vstd::utf8::*;

use rand::RngCore;

use crate::buf::append_bytes;
use crate::codec::blake3_digest;
use crate::codec::blake3_hash;
use crate::codec::lz4_compress;
use crate::codec::lz4_frame_encode;
use crate::codec::lz4_frame_encodes;
use crate::crypto::encrypt;
use crate::crypto::index_aad;
use crate::crypto::sealable;
use crate::crypto::sealed_bytes;
use crate::format::encode_index;
use crate::format::header_bytes;
use crate::format::index_aad_bytes;
use crate::format::index_bytes;
use crate::format::record_wf;
use crate::format::views;
use crate::types::Asset;
use crate::types::AssetFlags;
use crate::types::AssetView;
use crate::types::Errors;
use crate::types::COMPRESSED_BIT;
use crate::types::HEADER_LEN;

verus! {

/// Calls `fill_bytes` on `rand::rng()`, the thread-local generator of the
/// `rand` crate, to draw a fresh 12-byte nonce. Nothing is claimed about
/// the bytes.
#[verifier::external_body]
pub(crate) fn random_nonce() -> (r: [u8; 12]) {
    let mut nonce = [0u8; 12];
    rand::rng().fill_bytes(&mut nonce);
    nonce
}

/// `buf` with `bytes` written at offset `pos`, zero-filled up to `pos`
/// when `buf` is shorter: what writing at a seek position does.
pub open spec fn overwrite(buf: Seq<u8>, pos: int, bytes: Seq<u8>) -> Seq<u8> {
    let len: int = if buf.len() > pos + bytes.len() {
        buf.len() as int
    } else {
        pos + bytes.len()
    };
    Seq::new(
        len as nat,
        |i: int|
            if pos <= i < pos + bytes.len() {
                bytes[i - pos]
            } else if i < buf.len() {
                buf[i]
            } else {
                0u8
            },
    )
}

/// Writes `bytes` at offset `pos` of `out`, as a seek followed by a write.
pub fn write_at(out: &mut Vec<u8>, pos: usize, bytes: &[u8])
    requires
        pos + bytes@.len() <= usize::MAX,
    ensures
        final(out)@ == overwrite(old(out)@, pos as int, bytes@),
{
    while out.len() < pos
        invariant
            old(out)@.len() <= out@.len(),
            out@.len() > old(out)@.len() ==> out@.len() <= pos,
            forall|i: int| 0 <= i < old(out)@.len() ==> out@[i] == old(out)@[i],
            forall|i: int| old(out)@.len() <= i < out@.len() ==> out@[i] == 0u8,
        decreases pos - out@.len(),
    {
        out.push(0u8);
    }
    let ghost padded = out@;
    let mut i: usize = 0;
    while i < bytes.len()
        invariant
            i <= bytes@.len(),
            pos + bytes@.len() <= usize::MAX,
            padded.len() >= pos,
            padded.len() >= old(out)@.len(),
            forall|j: int| 0 <= j < old(out)@.len() ==> padded[j] == old(out)@[j],
            forall|j: int| old(out)@.len() <= j < padded.len() ==> padded[j] == 0u8,
            out@.len() == if padded.len() > pos + i { padded.len() as int } else { pos + i },
            forall|j: int|
                0 <= j < out@.len() ==> out@[j] == if pos <= j < pos + i {
                    bytes@[j - pos]
                } else {
                    padded[j]
                },
        decreases bytes@.len() - i,
    {
        if pos + i < out.len() {
            out.set(pos + i, bytes[i]);
        } else {
            out.push(bytes[i]);
        }
        i = i + 1;
    }
    assert(out@ =~= overwrite(old(out)@, pos as int, bytes@));
}

/// Appends an encoded header to `out`.
fn encode_header(
    out: &mut Vec<u8>,
    version: u16,
    assets_count: u32,
    salt: &[u8; 32],
    index_start: u64,
    index_size: u32,
)
    ensures
        final(out)@ == old(out)@ + header_bytes(version, assets_count, salt@, index_start, index_size),
{
    let aad = index_aad(version, assets_count, salt, index_start);
    append_bytes(out, aad.as_slice());
    let size = u32_to_le_bytes(index_size);
    append_bytes(out, size.as_slice());
    assert(out@ =~= old(out)@ + header_bytes(version, assets_count, salt@, index_start, index_size));
}

/// Writes a header whose index offset and size are still zero; the final
/// header is written by `write_index`.
pub fn write_placeholder(out: &mut Vec<u8>, version: u16, assets_count: u32, salt: [u8; 32]) -> (r: Result<(), Errors>)
    ensures
        r is Ok,
        final(out)@ == old(out)@ + header_bytes(version, assets_count, salt@, 0, 0),
{
    encode_header(out, version, assets_count, &salt, 0, 0);
    Ok(())
}

/// The payload stored for `data`: its LZ4 frame when compressing, the
/// data itself otherwise.
pub open spec fn stored_payload(data: Seq<u8>, compress: bool) -> Seq<u8> {
    if compress {
        lz4_frame_encode(data)
    } else {
        data
    }
}

/// The record `write_asset` returns for an asset stored at `start`.
pub open spec fn written_record(id: Seq<char>, data: Seq<u8>, compress: bool, start: nat) -> AssetView {
    AssetView {
        id_len: encode_utf8(id).len() as u16,
        id,
        start: start as u64,
        size: (stored_payload(data, compress).len() + 28) as u32,
        size_expected: data.len() as u32,
        flags: if compress { COMPRESSED_BIT } else { 0u8 },
        hash: blake3_digest(data),
    }
}

/// The views of a successful result, or its error.
pub open spec fn record_result(r: Result<Asset, Errors>) -> Result<AssetView, Errors> {
    match r {
        Ok(a) => Ok(a@),
        Err(e) => Err(e),
    }
}

/// Whether the payload of `data` can be produced: compression, when
/// asked for, completes without an error.
pub open spec fn payload_produced(data: Seq<u8>, compress: bool) -> bool {
    !compress || lz4_frame_encodes(data)
}

/// What writing an asset with a given nonce does: when compression is
/// asked for and the encoder reports an error, fail with `InvalidAsset`;
/// when the payload is too long to encrypt, fail with `EncryptionFailed`;
/// otherwise append the nonce and the ciphertext of the payload (with the
/// id as associated data) and return the record that locates it. A
/// failure leaves `out` as it was.
pub open spec fn asset_write(
    old_out: Seq<u8>,
    id: Seq<char>,
    data: Seq<u8>,
    compress: bool,
    key: Seq<u8>,
    nonce: Seq<u8>,
    new_out: Seq<u8>,
    r: Result<AssetView, Errors>,
) -> bool {
    let payload = stored_payload(data, compress);
    let sealed = sealed_bytes(key, nonce, payload, encode_utf8(id));
    if !payload_produced(data, compress) {
        &&& r == Err::<AssetView, Errors>(Errors::InvalidAsset)
        &&& new_out == old_out
    } else if !sealable(payload) {
        &&& r == Err::<AssetView, Errors>(Errors::EncryptionFailed)
        &&& new_out == old_out
    } else {
        &&& r == Ok::<AssetView, Errors>(written_record(id, data, compress, old_out.len()))
        &&& sealed.len() == payload.len() + 28
        &&& new_out == old_out + sealed
    }
}

/// Encrypts one asset with the given nonce, appends it to `out` and
/// returns the record that locates it.
pub fn write_asset_with_nonce(
    out: &mut Vec<u8>,
    id: &str,
    data: &[u8],
    compress: bool,
    key: &[u8; 32],
    nonce: &[u8; 12],
) -> (r: Result<Asset, Errors>)
    ensures
        asset_write(old(out)@, id@, data@, compress, key@, nonce@, final(out)@, record_result(r)),
        r is Ok <==> (payload_produced(data@, compress) && sealable(stored_payload(data@, compress))),
        r matches Ok(a) ==> a@.id == id@ && a@.start == old(out)@.len() && a@.size_expected
            == data@.len() as u32 && a@.hash == blake3_digest(data@),
{
    let hash = blake3_hash(data);
    let plain_len: u32 = data.len() as u32;
    let payload: Vec<u8> = if compress {
        match lz4_compress(data) {
            Ok(compressed) => compressed,
            Err(_) => {
                return Err(Errors::InvalidAsset);
            },
        }
    } else {
        vstd::slice::slice_to_vec(data)
    };
    let sealed = match encrypt(key, nonce, payload.as_slice(), id.as_bytes()) {
        Ok(v) => v,
        Err(_) => {
            return Err(Errors::EncryptionFailed);
        },
    };
    let start: u64 = out.len() as u64;
    append_bytes(out, sealed.as_slice());
    let size: u32 = sealed.len() as u32;
    let mut flags = AssetFlags::from_bits_truncate(0);
    if compress {
        flags.insert(AssetFlags::compressed());
    }
    proof {
        assert(0u8 & COMPRESSED_BIT == 0u8) by (bit_vector);
        assert(0u8 | COMPRESSED_BIT == COMPRESSED_BIT) by (bit_vector);
    }
    let id_bytes_len: usize = id.as_bytes().len();
    let asset = Asset {
        id_len: id_bytes_len as u16,
        id: id.to_owned(),
        start,
        size,
        size_expected: plain_len,
        flags,
        hash,
    };
    Ok(asset)
}

/// Encrypts one asset under a fresh random nonce, appends it to `out` and
/// returns the record that locates it.
pub fn write_asset(out: &mut Vec<u8>, id: &str, data: &[u8], compress: bool, key: &[u8; 32]) -> (r: Result<Asset, Errors>)
    ensures
        exists|nonce: Seq<u8>|
            nonce.len() == 12 && #[trigger] asset_write(
                old(out)@,
                id@,
                data@,
                compress,
                key@,
                nonce,
                final(out)@,
                record_result(r),
            ),
        r is Ok <==> (payload_produced(data@, compress) && sealable(stored_payload(data@, compress))),
        r matches Ok(a) ==> a@.id == id@ && a@.start == old(out)@.len() && a@.size_expected
            == data@.len() as u32 && a@.hash == blake3_digest(data@),
{
    let nonce = random_nonce();
    let r = write_asset_with_nonce(out, id, data, compress, key, &nonce);
    assert(asset_write(old(out)@, id@, data@, compress, key@, nonce@, out@, record_result(r)));
    r
}

/// What writing the index with a given nonce may do: on success, append
/// the nonce and the ciphertext of the encoded records (with the header
/// fields as associated data) and write the final header at `header_pos`;
/// when the encoded records are too long to encrypt, fail with
/// `EncryptionFailed` and leave `out` as it was.
pub open spec fn index_write(
    old_out: Seq<u8>,
    header_pos: u64,
    version: u16,
    assets: Seq<AssetView>,
    salt: Seq<u8>,
    key: Seq<u8>,
    nonce: Seq<u8>,
    new_out: Seq<u8>,
    r: Result<(), Errors>,
) -> bool {
    let count: u32 = assets.len() as u32;
    let index_start: u64 = old_out.len() as u64;
    let plain = index_bytes(assets);
    let sealed = sealed_bytes(key, nonce, plain, index_aad_bytes(version, count, salt, index_start));
    if sealable(plain) {
        &&& r is Ok
        &&& sealed.len() == plain.len() + 28
        &&& new_out == overwrite(
            old_out + sealed,
            header_pos as int,
            header_bytes(version, count, salt, index_start, sealed.len() as u32),
        )
    } else {
        &&& r == Err::<(), Errors>(Errors::EncryptionFailed)
        &&& new_out == old_out
    }
}

/// Encrypts the index of `assets` with the given nonce, appends it to
/// `out`, then writes the final header at `header_pos`.
pub fn write_index_with_nonce(
    out: &mut Vec<u8>,
    header_pos: u64,
    version: u16,
    assets: &[Asset],
    salt: [u8; 32],
    key: &[u8; 32],
    nonce: &[u8; 12],
) -> (r: Result<(), Errors>)
    requires
        header_pos + HEADER_LEN <= usize::MAX,
    ensures
        index_write(old(out)@, header_pos, version, views(assets@), salt@, key@, nonce@, final(out)@, r),
        forall|i: int|
            0 <= i < assets@.len() && (#[trigger] assets@[i])@.id_len == encode_utf8(assets@[i]@.id).len()
                ==> record_wf(assets@[i]@),
{
    let index_start: u64 = out.len() as u64;
    let plain = encode_index(assets);
    let aad = index_aad(version, assets.len() as u32, &salt, index_start);
    let index = match encrypt(key, nonce, plain.as_slice(), aad.as_slice()) {
        Ok(v) => v,
        Err(_) => {
            return Err(Errors::EncryptionFailed);
        },
    };
    append_bytes(out, index.as_slice());
    let index_size: u32 = index.len() as u32;
    let mut header: Vec<u8> = Vec::new();
    encode_header(&mut header, version, assets.len() as u32, &salt, index_start, index_size);
    proof {
        assert(views(assets@).len() == assets@.len());
        assert(header@.len() == HEADER_LEN) by {
            lemma_auto_spec_u16_to_from_le_bytes();
            lemma_auto_spec_u32_to_from_le_bytes();
            lemma_auto_spec_u64_to_from_le_bytes();
        }
    }
    write_at(out, header_pos as usize, header.as_slice());
    Ok(())
}

/// Encrypts the index of `assets` under a fresh random nonce, appends it
/// to `out`, then writes the final header at `header_pos`.
pub fn write_index(
    out: &mut Vec<u8>,
    header_pos: u64,
    version: u16,
    assets: &[Asset],
    salt: [u8; 32],
    key: &[u8; 32],
) -> (r: Result<(), Errors>)
    requires
        header_pos + HEADER_LEN <= usize::MAX,
    ensures
        exists|nonce: Seq<u8>|
            nonce.len() == 12 && #[trigger] index_write(
                old(out)@,
                header_pos,
                version,
                views(assets@),
                salt@,
                key@,
                nonce,
                final(out)@,
                r,
            ),
        forall|i: int|
            0 <= i < assets@.len() && (#[trigger] assets@[i])@.id_len == encode_utf8(assets@[i]@.id).len()
                ==> record_wf(assets@[i]@),
{
    let nonce = random_nonce();
    let r = write_index_with_nonce(out, header_pos, version, assets, salt, key, &nonce);
    assert(index_write(old(out)@, header_pos, version, views(assets@), salt@, key@, nonce@, out@, r));
    r
}

} // verus!
