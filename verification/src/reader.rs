//! Reading an archive held in memory: its header, its index and the
//! contents of each asset.

use vstd::prelude::*;
use vstd::bytes::*;
use vstd::utf8::*;

use crate::buf::copy_to_array;
use crate::buf::same_bytes;
use crate::codec::blake3_digest;
use crate::codec::blake3_hash;
use crate::codec::lz4_decompress_limited;
use crate::codec::lz4_frame_decode;
use crate::codec::lz4_frame_decodes;
use crate::codec::lz4_frame_encode;
use crate::codec::lz4_frame_encodes;
use crate::crypto::decrypt;
use crate::crypto::index_aad;
use crate::crypto::opened;
use crate::crypto::sealable;
use crate::crypto::sealed_bytes;
use crate::format::header_outcome;
use crate::format::index_aad_bytes;
use crate::format::index_outcome;
use crate::format::magic_bytes;
use crate::format::parse_index;
use crate::format::views;
use crate::types::Asset;
use crate::types::AssetFlags;
use crate::types::AssetView;
use crate::types::Errors;
use crate::types::Header;
use crate::types::HeaderView;
use crate::types::COMPRESSED_BIT;
use crate::types::VERSION;

verus! {

/// The largest decompressed size an asset may declare (1 GiB).
pub const MAX_DECOMPRESSED_LEN: u64 = 1073741824;

/// Whether the index that `h` points to lies inside a file of `file_len`
/// bytes.
pub open spec fn index_in_file(file_len: nat, h: HeaderView) -> bool {
    h.index_start <= file_len && h.index_size <= file_len - h.index_start
}

/// The stored bytes of the index that `h` points to.
pub open spec fn index_region(file: Seq<u8>, h: HeaderView) -> Seq<u8> {
    file.subrange(h.index_start as int, h.index_start + h.index_size)
}

/// The associated data that the index of an archive with header `h` is
/// encrypted under.
pub open spec fn header_aad(h: HeaderView) -> Seq<u8> {
    index_aad_bytes(h.version, h.assets_count, h.salt, h.index_start)
}

/// The views of a list of assets read from an index.
pub open spec fn assets_result(r: Result<Vec<Asset>, Errors>) -> Result<Seq<AssetView>, Errors> {
    match r {
        Ok(v) => Ok(views(v@)),
        Err(e) => Err(e),
    }
}

/// The bytes a read returned, or its error.
pub open spec fn bytes_result(r: Result<Vec<u8>, Errors>) -> Result<Seq<u8>, Errors> {
    match r {
        Ok(v) => Ok(v@),
        Err(e) => Err(e),
    }
}

/// What reading the index of `file` with header `h` and key `key` may
/// return. The index must lie inside the file and decrypt under the
/// header's associated data; then `count` records are read from the
/// plaintext. An index stored by `encrypt` reads as the records of the
/// message it was made from.
pub open spec fn index_read(file: Seq<u8>, h: HeaderView, key: Seq<u8>, r: Result<Seq<AssetView>, Errors>) -> bool {
    if !index_in_file(file.len(), h) {
        r == Err::<Seq<AssetView>, Errors>(Errors::InvalidIndex)
    } else {
        let region = index_region(file, h);
        let aad = header_aad(h);
        &&& r == match opened(key, region, aad) {
            None => Err(Errors::DecryptionFailed),
            Some(p) => index_outcome(p, h.assets_count as nat),
        }
        &&& forall|n: Seq<u8>, m: Seq<u8>|
            n.len() == 12 && sealable(m) && region.len() == m.len() + 28 && region == #[trigger] sealed_bytes(
                key,
                n,
                m,
                aad,
            ) ==> r == index_outcome(m, h.assets_count as nat)
    }
}

/// The data, if its BLAKE3 digest is the one the record holds.
pub open spec fn checked_data(d: Seq<u8>, a: AssetView) -> Result<Seq<u8>, Errors> {
    if blake3_digest(d) == a.hash {
        Ok(d)
    } else {
        Err(Errors::AssetHashMismatch)
    }
}

/// What `decompress` returns for payload `p` and declared size
/// `size_expected`: an error when the declared size is above the limit,
/// when the decoder reports an error, or when it yields a number of bytes
/// other than the declared size; the decoded bytes otherwise.
pub open spec fn decompressed(p: Seq<u8>, size_expected: u32) -> Result<Seq<u8>, Errors> {
    if size_expected > MAX_DECOMPRESSED_LEN || !lz4_frame_decodes(p, (size_expected + 1) as nat)
        || decoded(p, size_expected).len() != size_expected {
        Err(Errors::DecompressFailed)
    } else {
        Ok(decoded(p, size_expected))
    }
}

/// What LZ4 being lossless gives for payload `p` read with room for
/// `size_expected` bytes: a frame the encoder wrote for a message decodes
/// without an error, and then to that message when it is no longer than
/// `size_expected`.
pub open spec fn lz4_lossless_at(p: Seq<u8>, size_expected: u32) -> bool {
    &&& forall|m: Seq<u8>|
        #[trigger] lz4_frame_encode(m) == p && lz4_frame_encodes(m) ==> lz4_frame_decodes(
            p,
            (size_expected + 1) as nat,
        )
    &&& forall|m: Seq<u8>|
        #[trigger] lz4_frame_encode(m) == p && lz4_frame_encodes(m) && m.len() <= size_expected
            ==> decoded(p, size_expected) == m
}

/// The bytes the decoder yields for `p` when it may read one byte more
/// than `size_expected`.
pub open spec fn decoded(p: Seq<u8>, size_expected: u32) -> Seq<u8> {
    lz4_frame_decode(p, (size_expected + 1) as nat)
}

/// Whether the record's flags mark its payload as compressed.
pub open spec fn is_compressed(a: AssetView) -> bool {
    a.flags & COMPRESSED_BIT == COMPRESSED_BIT
}

/// What turning a decrypted payload `p` into the asset's data gives:
/// the payload itself, or its decompression when the record is marked
/// compressed, checked against the record's digest.
pub open spec fn payload_outcome(p: Seq<u8>, a: AssetView, r: Result<Seq<u8>, Errors>) -> bool {
    if !is_compressed(a) {
        r == checked_data(p, a)
    } else {
        &&& r == match decompressed(p, a.size_expected) {
            Ok(d) => checked_data(d, a),
            Err(e) => Err(e),
        }
        &&& a.size_expected <= MAX_DECOMPRESSED_LEN ==> lz4_lossless_at(p, a.size_expected)
    }
}

/// Whether the stored bytes of asset `a` lie inside a file of `file_len`
/// bytes.
pub open spec fn asset_in_file(file_len: nat, a: AssetView) -> bool {
    a.start <= file_len && a.size <= file_len - a.start
}

/// The stored bytes of asset `a`.
pub open spec fn asset_region(file: Seq<u8>, a: AssetView) -> Seq<u8> {
    file.subrange(a.start as int, a.start + a.size)
}

/// What reading asset `a` of `file` with key `key` may return. Its bytes
/// must lie inside the file and decrypt with the asset's id as associated
/// data; the payload is then decompressed if needed and checked against
/// the record's digest.
pub open spec fn asset_read(file: Seq<u8>, a: AssetView, key: Seq<u8>, r: Result<Seq<u8>, Errors>) -> bool {
    if !asset_in_file(file.len(), a) {
        r == Err::<Seq<u8>, Errors>(Errors::InvalidAsset)
    } else {
        let region = asset_region(file, a);
        let aad = encode_utf8(a.id);
        &&& match opened(key, region, aad) {
            None => r == Err::<Seq<u8>, Errors>(Errors::DecryptionFailed),
            Some(p) => payload_outcome(p, a, r),
        }
        &&& forall|n: Seq<u8>, m: Seq<u8>|
            n.len() == 12 && sealable(m) && region.len() == m.len() + 28 && region == #[trigger] sealed_bytes(
                key,
                n,
                m,
                aad,
            ) ==> payload_outcome(m, a, r)
    }
}

/// Reads the header at the start of `data`.
pub fn read_header(data: &[u8]) -> (r: Result<Header, Errors>)
    ensures
        match header_outcome(data@) {
            Ok(h) => r matches Ok(x) && x@ == h,
            Err(e) => r matches Err(x) && x == e,
        },
{
    if data.len() < 4 {
        return Err(Errors::InvalidHeader);
    }
    let magic: [u8; 4] = copy_to_array(data, 0);
    if !(magic[0] == 0x43u8 && magic[1] == 0x55u8 && magic[2] == 0x54u8 && magic[3] == 0x53u8) {
        proof {
            if data@.subrange(0, 4) == magic_bytes() {
                assert(magic@[0] == magic_bytes()[0]);
                assert(magic@[1] == magic_bytes()[1]);
                assert(magic@[2] == magic_bytes()[2]);
                assert(magic@[3] == magic_bytes()[3]);
            }
        }
        return Err(Errors::InvalidFileType);
    }
    assert(data@.subrange(0, 4) =~= magic_bytes());
    if data.len() < 6 {
        return Err(Errors::InvalidHeader);
    }
    let version: u16 = u16_from_le_bytes(vstd::slice::slice_subrange(data, 4, 6));
    if version != VERSION {
        return Err(Errors::InCompatibleVersion(version));
    }
    if data.len() < 54 {
        return Err(Errors::InvalidHeader);
    }
    let assets_count: u32 = u32_from_le_bytes(vstd::slice::slice_subrange(data, 6, 10));
    let salt: [u8; 32] = copy_to_array(data, 10);
    let index_start: u64 = u64_from_le_bytes(vstd::slice::slice_subrange(data, 42, 50));
    let index_size: u32 = u32_from_le_bytes(vstd::slice::slice_subrange(data, 50, 54));
    Ok(Header { magic, version, assets_count, salt, index_start, index_size })
}

/// Reads the index of `file`, whose header is `header`, with key
/// `master`.
pub fn read_index(file: &[u8], header: &Header, master: &[u8; 32]) -> (r: Result<Vec<Asset>, Errors>)
    ensures
        index_read(file@, header@, master@, assets_result(r)),
{
    let file_len: u64 = file.len() as u64;
    if header.index_start > file_len || header.index_size as u64 > file_len - header.index_start {
        return Err(Errors::InvalidIndex);
    }
    let start: usize = header.index_start as usize;
    let end: usize = start + header.index_size as usize;
    let encrypted = vstd::slice::slice_subrange(file, start, end);
    let aad = index_aad(header.version, header.assets_count, &header.salt, header.index_start);
    let decrypted = match decrypt(master, encrypted, aad.as_slice()) {
        Ok(plain) => plain,
        Err(e) => {
            return Err(e);
        },
    };
    parse_index(decrypted.as_slice(), header.assets_count)
}

/// Decompresses a payload that should hold `asset.size_expected` bytes.
pub fn decompress(data_raw: Vec<u8>, asset: &Asset) -> (r: Result<Vec<u8>, Errors>)
    ensures
        bytes_result(r) == decompressed(data_raw@, asset.size_expected),
        asset.size_expected <= MAX_DECOMPRESSED_LEN ==> lz4_lossless_at(data_raw@, asset.size_expected),
{
    if asset.size_expected as u64 > MAX_DECOMPRESSED_LEN {
        return Err(Errors::DecompressFailed);
    }
    let decompressed = match lz4_decompress_limited(data_raw.as_slice(), asset.size_expected as u64 + 1) {
        Ok(d) => d,
        Err(_) => {
            return Err(Errors::DecompressFailed);
        },
    };
    if decompressed.len() != asset.size_expected as usize {
        return Err(Errors::DecompressFailed);
    }
    Ok(decompressed)
}

/// Turns the decrypted payload of `asset` into its data: decompresses it
/// when the record says so and checks it against the record's digest.
pub fn finish_asset(decrypted: Vec<u8>, asset: &Asset) -> (r: Result<Vec<u8>, Errors>)
    ensures
        payload_outcome(decrypted@, asset@, bytes_result(r)),
{
    let data = if asset.flags.contains(AssetFlags::compressed()) {
        match decompress(decrypted, asset) {
            Ok(d) => d,
            Err(_) => {
                return Err(Errors::DecompressFailed);
            },
        }
    } else {
        decrypted
    };
    let hash = blake3_hash(data.as_slice());
    if !same_bytes(&hash, &asset.hash) {
        return Err(Errors::AssetHashMismatch);
    }
    Ok(data)
}

/// Reads, decrypts and checks the data of `asset` from `file` with key
/// `master`.
pub fn read_asset(file: &[u8], asset: &Asset, master: &[u8; 32]) -> (r: Result<Vec<u8>, Errors>)
    ensures
        asset_read(file@, asset@, master@, bytes_result(r)),
{
    let file_len: u64 = file.len() as u64;
    if asset.start > file_len || asset.size as u64 > file_len - asset.start {
        return Err(Errors::InvalidAsset);
    }
    let start: usize = asset.start as usize;
    let end: usize = start + asset.size as usize;
    let data_raw = vstd::slice::slice_subrange(file, start, end);
    let decrypted = match decrypt(master, data_raw, asset.id.as_str().as_bytes()) {
        Ok(plain) => plain,
        Err(_) => {
            return Err(Errors::DecryptionFailed);
        },
    };
    finish_asset(decrypted, asset)
}

} // verus!
