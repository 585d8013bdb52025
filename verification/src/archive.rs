//! Packing a set of files into a complete archive.

use vstd::prelude::*;
use vstd::bytes::*;
use vstd::utf8::*;

use crate::codec::lz4_frame_encode;
use crate::codec::lz4_frame_encodes;
use crate::crypto::sealable;
use crate::crypto::MAX_SEALED_LEN;
use crate::crypto::sealed_bytes;
use crate::format::header_bytes;
use crate::format::header_outcome;
use crate::format::index_bytes;
use crate::format::lemma_header_roundtrip;
use crate::format::magic_bytes;
use crate::format::record_bytes;
use crate::format::record_wf;
use crate::format::views;
use crate::laws::final_header;
use crate::laws::law_index_read_after_write;
use crate::laws::lemma_stored_asset_reads_back;
use crate::reader::asset_in_file;
use crate::reader::asset_read;
use crate::reader::asset_region;
use crate::reader::index_read;
use crate::reader::MAX_DECOMPRESSED_LEN;
use crate::types::Asset;
use crate::types::AssetView;
use crate::types::Errors;
use crate::types::HeaderView;
use crate::types::COMPRESSED_BIT;
use crate::types::HEADER_LEN;
use crate::types::VERSION;
use crate::writer::overwrite;
use crate::writer::random_nonce;
use crate::writer::stored_payload;
use crate::writer::write_asset_with_nonce;
use crate::writer::write_index_with_nonce;
use crate::writer::write_placeholder;
use crate::writer::written_record;

verus! {

/// The ids of the files to pack.
pub open spec fn file_ids(files: Seq<(String, Vec<u8>)>) -> Seq<Seq<char>> {
    files.map_values(|f: (String, Vec<u8>)| f.0@)
}

/// The contents of the files to pack.
pub open spec fn file_contents(files: Seq<(String, Vec<u8>)>) -> Seq<Seq<u8>> {
    files.map_values(|f: (String, Vec<u8>)| f.1@)
}

/// The length of the index plaintext for assets with these ids.
pub open spec fn index_len(ids: Seq<Seq<char>>) -> nat
    decreases ids.len(),
{
    if ids.len() == 0 {
        0
    } else {
        index_len(ids.drop_last()) + 51 + encode_utf8(ids.last()).len()
    }
}

/// Whether every length the archive records fits its field: the number
/// of files, each id's byte length, each compressed payload with its
/// nonce and tag, and the encrypted index.
pub open spec fn fits_fields(ids: Seq<Seq<char>>, contents: Seq<Seq<u8>>) -> bool {
    &&& ids.len() == contents.len()
    &&& ids.len() <= u32::MAX
    &&& forall|i: int| 0 <= i < ids.len() ==> encode_utf8(#[trigger] ids[i]).len() <= u16::MAX
    &&& forall|i: int|
        0 <= i < ids.len() ==> lz4_frame_encode(#[trigger] contents[i]).len() + 28 <= u32::MAX
    &&& index_len(ids) + 28 <= u32::MAX
}

/// Whether the archive's fields fit and no file is larger than a record
/// may declare for decompression.
pub open spec fn packable(ids: Seq<Seq<char>>, contents: Seq<Seq<u8>>) -> bool {
    &&& fits_fields(ids, contents)
    &&& forall|i: int| 0 <= i < ids.len() ==> (#[trigger] contents[i]).len() <= MAX_DECOMPRESSED_LEN
}

/// Whether records `recs` are one per file, each with the file's id, and
/// every reading of each with `key` gives the file's contents.
pub open spec fn records_read_back(
    recs: Seq<AssetView>,
    ids: Seq<Seq<char>>,
    contents: Seq<Seq<u8>>,
    key: Seq<u8>,
    file: Seq<u8>,
) -> bool {
    &&& recs.len() == ids.len()
    &&& forall|i: int| 0 <= i < ids.len() ==> (#[trigger] recs[i]).id == ids[i]
    &&& forall|i: int, r2: Result<Seq<u8>, Errors>|
        0 <= i < ids.len() && #[trigger] asset_read(file, recs[i], key, r2) ==> r2 == Ok::<
            Seq<u8>,
            Errors,
        >(contents[i])
}

/// Whether records `recs` describe the files laid out one after the
/// other from the end of the header up to the index at `index_start`:
/// each is the record `write_asset` returns for the compressed file (so
/// it is marked compressed and holds the file's BLAKE3 digest), the first
/// starts right after the header, each starts where the one before ends,
/// and the last ends where the index starts.
pub open spec fn records_laid_out(
    recs: Seq<AssetView>,
    ids: Seq<Seq<char>>,
    contents: Seq<Seq<u8>>,
    index_start: u64,
) -> bool {
    &&& recs.len() == ids.len()
    &&& forall|i: int|
        0 <= i < recs.len() ==> #[trigger] recs[i] == written_record(ids[i], contents[i], true, recs[i].start as nat)
    &&& recs.len() == 0 ==> index_start == HEADER_LEN
    &&& recs.len() > 0 ==> recs[0].start == HEADER_LEN
    &&& recs.len() > 0 ==> recs.last().start + recs.last().size == index_start
    &&& forall|i: int, j: int|
        0 <= i && j == i + 1 && j < recs.len() ==> #[trigger] recs[i].start + recs[i].size == #[trigger] recs[j].start
}

/// What reading a packed archive gives: a header for `ids.len()` assets
/// with the given salt; when every length fits its field, an index that
/// ends the file and whose every reading with `key` gives records laid
/// out one per file, in order; and, when no file is larger than the
/// decompression limit, records that read back as the files.
pub open spec fn reads_back(
    ids: Seq<Seq<char>>,
    contents: Seq<Seq<u8>>,
    salt: Seq<u8>,
    key: Seq<u8>,
    file: Seq<u8>,
) -> bool {
    &&& header_outcome(file) is Ok
    &&& header_outcome(file)->Ok_0.version == VERSION
    &&& header_outcome(file)->Ok_0.assets_count == ids.len() as u32
    &&& header_outcome(file)->Ok_0.salt == salt
    &&& fits_fields(ids, contents) ==> header_outcome(file)->Ok_0.index_start
        + header_outcome(file)->Ok_0.index_size == file.len()
    &&& fits_fields(ids, contents) ==> forall|rr: Result<Seq<AssetView>, Errors>|
        #[trigger] index_read(file, header_outcome(file)->Ok_0, key, rr) ==> match rr {
            Ok(recs) => {
                &&& records_laid_out(recs, ids, contents, header_outcome(file)->Ok_0.index_start)
                &&& packable(ids, contents) ==> records_read_back(recs, ids, contents, key, file)
            },
            Err(_) => false,
        }
}

/// The error, if any, that writing the first `contents.len()` files
/// compressed meets first: `InvalidAsset` when the encoder reports an
/// error on a file, `EncryptionFailed` when its frame is too long to
/// encrypt.
pub open spec fn assets_error(contents: Seq<Seq<u8>>) -> Option<Errors>
    decreases contents.len(),
{
    if contents.len() == 0 {
        None
    } else {
        match assets_error(contents.drop_last()) {
            Some(e) => Some(e),
            None => if !lz4_frame_encodes(contents.last()) {
                Some(Errors::InvalidAsset)
            } else if !sealable(lz4_frame_encode(contents.last())) {
                Some(Errors::EncryptionFailed)
            } else {
                None
            },
        }
    }
}

/// The error, if any, that packing these files meets: the first error of
/// an asset, or `EncryptionFailed` when the index is too long to encrypt.
pub open spec fn pack_error(ids: Seq<Seq<char>>, contents: Seq<Seq<u8>>) -> Option<Errors> {
    match assets_error(contents) {
        Some(e) => Some(e),
        None => if index_len(ids) > MAX_SEALED_LEN {
            Some(Errors::EncryptionFailed)
        } else {
            None
        },
    }
}

/// An error met in a prefix of the files is the error of all of them.
proof fn lemma_assets_error_prefix(contents: Seq<Seq<u8>>, k: int)
    requires
        0 <= k <= contents.len(),
        assets_error(contents.take(k)) is Some,
    ensures
        assets_error(contents) == assets_error(contents.take(k)),
    decreases contents.len() - k,
{
    if k < contents.len() {
        assert(contents.take(k + 1).drop_last() =~= contents.take(k));
        lemma_assets_error_prefix(contents, k + 1);
    } else {
        assert(contents.take(k) =~= contents);
    }
}

/// What packing leaves of asset `a`: its record is the one `write_asset`
/// returns for a compressed file, and the bytes it points to are the
/// nonce and ciphertext of the file's LZ4 frame.
pub open spec fn stored_in(
    out: Seq<u8>,
    id: Seq<char>,
    data: Seq<u8>,
    key: Seq<u8>,
    nonce: Seq<u8>,
    a: AssetView,
) -> bool {
    let payload = stored_payload(data, true);
    let sealed = sealed_bytes(key, nonce, payload, encode_utf8(id));
    &&& nonce.len() == 12
    &&& lz4_frame_encodes(data)
    &&& sealable(payload)
    &&& sealed.len() == payload.len() + 28
    &&& a == written_record(id, data, true, a.start as nat)
    &&& HEADER_LEN <= a.start
    &&& a.start + sealed.len() <= out.len()
    &&& out.subrange(a.start as int, a.start + sealed.len()) == sealed
    &&& a.hash.len() == 32
}

/// The index plaintext of records with these ids has `index_len` bytes.
proof fn lemma_index_len(recs: Seq<AssetView>, ids: Seq<Seq<char>>)
    requires
        recs.len() == ids.len(),
        forall|i: int| 0 <= i < recs.len() ==> (#[trigger] recs[i]).id == ids[i] && recs[i].hash.len() == 32,
    ensures
        index_bytes(recs).len() == index_len(ids),
    decreases recs.len(),
{
    if recs.len() > 0 {
        lemma_auto_spec_u16_to_from_le_bytes();
        lemma_auto_spec_u32_to_from_le_bytes();
        lemma_auto_spec_u64_to_from_le_bytes();
        assert(recs[recs.len() - 1].id == ids[ids.len() - 1]);
        lemma_index_len(recs.drop_last(), ids.drop_last());
        assert(record_bytes(recs.last()).len() == 51 + encode_utf8(ids.last()).len());
    }
}

/// Packs `files` (id and contents) into an archive: a header for that
/// many assets, each file compressed and encrypted under a fresh nonce,
/// then the encrypted index and the final header.
pub fn pack_archive(files: &[(String, Vec<u8>)], salt: [u8; 32], key: &[u8; 32]) -> (r: Result<Vec<u8>, Errors>)
    ensures
        match pack_error(file_ids(files@), file_contents(files@)) {
            Some(e) => r == Err::<Vec<u8>, Errors>(e),
            None => r is Ok,
        },
        r matches Ok(file) ==> reads_back(file_ids(files@), file_contents(files@), salt@, key@, file@),
{
    let n: usize = files.len();
    let ghost ids = file_ids(files@);
    let ghost contents = file_contents(files@);
    let mut out: Vec<u8> = Vec::new();
    let _ = write_placeholder(&mut out, VERSION, n as u32, salt);
    proof {
        lemma_header_roundtrip(VERSION, n as u32, salt@, 0, 0, seq![]);
        assert(contents.take(0) =~= seq![]);
    }
    let mut assets: Vec<Asset> = Vec::new();
    let ghost mut nonces: Seq<Seq<u8>> = seq![];
    let mut i: usize = 0;
    while i < n
        invariant
            n == files@.len(),
            ids == file_ids(files@),
            contents == file_contents(files@),
            i <= n,
            HEADER_LEN <= out@.len(),
            assets@.len() == i,
            nonces.len() == i,
            assets_error(contents.take(i as int)) is None,
            forall|j: int|
                0 <= j < i ==> stored_in(out@, ids[j], contents[j], key@, nonces[j], #[trigger] assets@[j]@),
            i == 0 ==> out@.len() == HEADER_LEN,
            i > 0 ==> assets@[0]@.start == HEADER_LEN,
            i > 0 ==> assets@[i - 1]@.start + lz4_frame_encode(contents[i - 1]).len() + 28 == out@.len(),
            forall|j: int, k: int|
                0 <= j && k == j + 1 && k < i ==> #[trigger] assets@[j]@.start + lz4_frame_encode(contents[j]).len() + 28
                    == #[trigger] assets@[k]@.start,
        decreases n - i,
    {
        let nonce = random_nonce();
        let before_len: usize = out.len();
        let ghost before = out@;
        assert(before.len() == before_len as nat);
        proof {
            assert(contents[i as int] == files@[i as int].1@);
            assert(ids[i as int] == files@[i as int].0@);
            assert(contents.take(i + 1).drop_last() =~= contents.take(i as int));
            assert(contents.take(i + 1).last() == contents[i as int]);
        }
        let asset = match write_asset_with_nonce(&mut out, files[i].0.as_str(), files[i].1.as_slice(), true, key, &nonce) {
            Ok(a) => a,
            Err(e) => {
                proof {
                    lemma_assets_error_prefix(contents, i + 1);
                }
                return Err(e);
            },
        };
        proof {
            assert forall|j: int| 0 <= j < i implies stored_in(out@, ids[j], contents[j], key@, nonces[j], #[trigger] assets@[j]@) by {
                let a = assets@[j]@;
                let sealed = sealed_bytes(key@, nonces[j], stored_payload(contents[j], true), encode_utf8(ids[j]));
                assert(out@.subrange(a.start as int, a.start + sealed.len()) =~= before.subrange(a.start as int, a.start + sealed.len()));
            }
            let payload = stored_payload(contents[i as int], true);
            let sealed = sealed_bytes(key@, nonce@, payload, encode_utf8(ids[i as int]));
            assert(out@.subrange(before.len() as int, before.len() + sealed.len() as int) =~= sealed);
            assert(asset@.start == before.len());
        }
        assets.push(asset);
        proof {
            nonces = nonces.push(nonce@);
        }
        i = i + 1;
    }
    proof {
        assert(contents.take(n as int) =~= contents);
    }
    let nonce = random_nonce();
    let before_len: usize = out.len();
    let ghost before = out@;
    assert(before.len() == before_len as nat);
    proof {
        assert forall|j: int| 0 <= j < views(assets@).len() implies (#[trigger] views(assets@)[j]).id == ids[j]
            && views(assets@)[j].hash.len() == 32 by {
            assert(stored_in(out@, ids[j], contents[j], key@, nonces[j], assets@[j]@));
        }
        lemma_index_len(views(assets@), ids);
    }
    match write_index_with_nonce(&mut out, 0, VERSION, assets.as_slice(), salt, key, &nonce) {
        Ok(()) => {},
        Err(e) => {
            return Err(e);
        },
    }
    proof {
        let recs = views(assets@);
        let count: u32 = recs.len() as u32;
        let index_start: u64 = before.len() as u64;
        let plain = index_bytes(recs);
        let aad = crate::format::index_aad_bytes(VERSION, count, salt@, index_start);
        let sealed = sealed_bytes(key@, nonce@, plain, aad);
        let hb = header_bytes(VERSION, count, salt@, index_start, sealed.len() as u32);
        lemma_header_roundtrip(VERSION, count, salt@, index_start, sealed.len() as u32, out@.subrange(54, out@.len() as int));
        assert(out@ =~= hb + out@.subrange(54, out@.len() as int));
        assert(recs.len() == n);
        if fits_fields(ids, contents) {
            assert forall|j: int| 0 <= j < recs.len() implies record_wf(#[trigger] recs[j]) by {
                assert(stored_in(before, ids[j], contents[j], key@, nonces[j], assets@[j]@));
                assert(COMPRESSED_BIT & COMPRESSED_BIT == COMPRESSED_BIT) by (bit_vector);
                assert(encode_utf8(ids[j]).len() <= u16::MAX);
            }
            assert forall|j: int| 0 <= j < recs.len() implies (#[trigger] recs[j]).id == ids[j] && recs[j].hash.len() == 32 by {
                assert(stored_in(before, ids[j], contents[j], key@, nonces[j], assets@[j]@));
            }
            lemma_index_len(recs, ids);
            assert forall|j: int| 0 <= j < recs.len() implies #[trigger] recs[j].size == lz4_frame_encode(contents[j]).len() + 28 by {
                assert(stored_in(before, ids[j], contents[j], key@, nonces[j], assets@[j]@));
                assert(lz4_frame_encode(contents[j]).len() + 28 <= u32::MAX);
            }
            assert(records_laid_out(recs, ids, contents, index_start)) by {
                assert forall|j: int|
                    0 <= j < recs.len() implies #[trigger] recs[j] == written_record(ids[j], contents[j], true, recs[j].start as nat) by {
                    assert(stored_in(before, ids[j], contents[j], key@, nonces[j], assets@[j]@));
                }
                assert forall|j: int, k: int|
                    0 <= j && k == j + 1 && k < recs.len() implies #[trigger] recs[j].start + recs[j].size == #[trigger] recs[k].start by {
                    assert(recs[j].size == lz4_frame_encode(contents[j]).len() + 28);
                    assert(assets@[j]@.start + lz4_frame_encode(contents[j]).len() + 28 == assets@[k]@.start);
                }
                if recs.len() > 0 {
                    assert(recs[recs.len() - 1].size == lz4_frame_encode(contents[recs.len() - 1]).len() + 28);
                }
            }
            assert forall|rr: Result<Seq<AssetView>, Errors>|
                #[trigger] index_read(out@, header_outcome(out@)->Ok_0, key@, rr)
                implies match rr {
                    Ok(rs) => {
                        &&& records_laid_out(rs, ids, contents, header_outcome(out@)->Ok_0.index_start)
                        &&& packable(ids, contents) ==> records_read_back(rs, ids, contents, key@, out@)
                    },
                    Err(_) => false,
                } by {
                law_index_read_after_write(before, recs, salt@, key@, nonce@, out@, rr);
                if packable(ids, contents) {
                    assert forall|k: int, r2: Result<Seq<u8>, Errors>|
                        0 <= k < ids.len() && #[trigger] asset_read(out@, recs[k], key@, r2)
                        implies r2 == Ok::<Seq<u8>, Errors>(contents[k]) by {
                        let a = recs[k];
                        assert(stored_in(before, ids[k], contents[k], key@, nonces[k], assets@[k]@));
                        let psealed = sealed_bytes(key@, nonces[k], stored_payload(contents[k], true), encode_utf8(ids[k]));
                        assert(out@.subrange(a.start as int, a.start + psealed.len()) =~= before.subrange(a.start as int, a.start + psealed.len()));
                        lemma_stored_asset_reads_back(ids[k], contents[k], true, key@, nonces[k], a, out@, r2);
                    }
                }
            }
        }
    }
    Ok(out)
}

} // verus!
