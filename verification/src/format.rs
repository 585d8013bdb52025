//! The byte layout of an archive: the header, the associated data that
//! binds the index to its header, and the records of the index.

use vstd::prelude::*;
use vstd::bytes::*;
use vstd::utf8::*;

use crate::buf::append_bytes;
use crate::buf::copy_to_array;
use crate::types::Asset;
use crate::types::AssetFlags;
use crate::types::AssetView;
use crate::types::Errors;
use crate::types::HeaderView;
use crate::types::VERSION;
use crate::types::COMPRESSED_BIT;

verus! {

/// The four bytes `CUTS` that open every archive.
pub open spec fn magic_bytes() -> Seq<u8> {
    seq![0x43u8, 0x55u8, 0x54u8, 0x53u8]
}

/// The associated data under which the index is encrypted: the magic,
/// the version, the asset count, the salt and the index offset.
pub open spec fn index_aad_bytes(version: u16, assets_count: u32, salt: Seq<u8>, index_start: u64) -> Seq<u8> {
    magic_bytes() + spec_u16_to_le_bytes(version) + spec_u32_to_le_bytes(assets_count) + salt
        + spec_u64_to_le_bytes(index_start)
}

/// The encoded header: the index's associated data followed by the
/// index size.
pub open spec fn header_bytes(
    version: u16,
    assets_count: u32,
    salt: Seq<u8>,
    index_start: u64,
    index_size: u32,
) -> Seq<u8> {
    index_aad_bytes(version, assets_count, salt, index_start) + spec_u32_to_le_bytes(index_size)
}


/// What `read_header` makes of the bytes at the start of an archive.
pub open spec fn header_outcome(s: Seq<u8>) -> Result<HeaderView, Errors> {
    if s.len() < 4 {
        Err(Errors::InvalidHeader)
    } else if s.subrange(0, 4) != magic_bytes() {
        Err(Errors::InvalidFileType)
    } else if s.len() < 6 {
        Err(Errors::InvalidHeader)
    } else if spec_u16_from_le_bytes(s.subrange(4, 6)) != VERSION {
        Err(Errors::InCompatibleVersion(spec_u16_from_le_bytes(s.subrange(4, 6))))
    } else if s.len() < 54 {
        Err(Errors::InvalidHeader)
    } else {
        Ok(
            HeaderView {
                magic: s.subrange(0, 4),
                version: spec_u16_from_le_bytes(s.subrange(4, 6)),
                assets_count: spec_u32_from_le_bytes(s.subrange(6, 10)),
                salt: s.subrange(10, 42),
                index_start: spec_u64_from_le_bytes(s.subrange(42, 50)),
                index_size: spec_u32_from_le_bytes(s.subrange(50, 54)),
            },
        )
    }
}

/// Number of bytes of a record after its id.
pub open spec fn record_tail_len() -> int {
    49int
}

/// The encoding of one index record.
pub open spec fn record_bytes(a: AssetView) -> Seq<u8> {
    spec_u16_to_le_bytes(a.id_len) + encode_utf8(a.id) + spec_u64_to_le_bytes(a.start)
        + spec_u32_to_le_bytes(a.size) + spec_u32_to_le_bytes(a.size_expected) + seq![a.flags]
        + a.hash
}

/// The plaintext of an index: its records one after the other.
pub open spec fn index_bytes(assets: Seq<AssetView>) -> Seq<u8>
    decreases assets.len(),
{
    if assets.len() == 0 {
        seq![]
    } else {
        index_bytes(assets.drop_last()) + record_bytes(assets.last())
    }
}

/// A record that reads back as itself: its id length is the byte length
/// of its id, its flags hold only known bits and its hash has 32 bytes.
pub open spec fn record_wf(a: AssetView) -> bool {
    &&& a.id_len as int == encode_utf8(a.id).len()
    &&& a.flags & COMPRESSED_BIT == a.flags
    &&& a.hash.len() == 32
}

/// The record at the start of `s` and the number of bytes it takes, or
/// `None` when `s` does not start with a well-formed record.
pub open spec fn record_at(s: Seq<u8>) -> Option<(AssetView, int)> {
    if s.len() < 2 {
        None
    } else {
        let id_len = spec_u16_from_le_bytes(s.subrange(0, 2));
        let p = 2 + id_len;
        if s.len() < p {
            None
        } else if !valid_utf8(s.subrange(2, p)) {
            None
        } else if s.len() < p + record_tail_len() {
            None
        } else {
            Some(
                (
                    AssetView {
                        id_len: id_len,
                        id: decode_utf8(s.subrange(2, p)),
                        start: spec_u64_from_le_bytes(s.subrange(p, p + 8)),
                        size: spec_u32_from_le_bytes(s.subrange(p + 8, p + 12)),
                        size_expected: spec_u32_from_le_bytes(s.subrange(p + 12, p + 16)),
                        flags: s[p + 16] & COMPRESSED_BIT,
                        hash: s.subrange(p + 17, p + 49),
                    },
                    p + record_tail_len(),
                ),
            )
        }
    }
}

/// The first `n` records of `s` and the number of bytes they take; a
/// record must start before the end of `s`.
pub open spec fn records_at(s: Seq<u8>, n: nat) -> Option<(Seq<AssetView>, int)>
    decreases n,
{
    if n == 0 {
        Some((seq![], 0))
    } else {
        match records_at(s, (n - 1) as nat) {
            None => None,
            Some((v, k)) => if k >= s.len() {
                None
            } else {
                match record_at(s.subrange(k, s.len() as int)) {
                    None => None,
                    Some((a, j)) => Some((v.push(a), k + j)),
                }
            },
        }
    }
}

/// What `parse_index` makes of a decrypted index holding `n` records.
pub open spec fn index_outcome(s: Seq<u8>, n: nat) -> Result<Seq<AssetView>, Errors> {
    match records_at(s, n) {
        Some((v, _)) => Ok(v),
        None => Err(Errors::InvalidIndex),
    }
}


/// Reading back an encoded header gives the fields it was written from.
pub proof fn lemma_header_roundtrip(
    version: u16,
    assets_count: u32,
    salt: Seq<u8>,
    index_start: u64,
    index_size: u32,
    rest: Seq<u8>,
)
    requires
        salt.len() == 32,
    ensures
        header_bytes(version, assets_count, salt, index_start, index_size).len() == 54,
        version == VERSION ==> header_outcome(
            header_bytes(version, assets_count, salt, index_start, index_size) + rest,
        ) == Ok::<HeaderView, Errors>(
            HeaderView {
                magic: magic_bytes(),
                version,
                assets_count,
                salt,
                index_start,
                index_size,
            },
        ),
        version != VERSION ==> header_outcome(
            header_bytes(version, assets_count, salt, index_start, index_size) + rest,
        ) == Err::<HeaderView, Errors>(Errors::InCompatibleVersion(version)),
{
    lemma_auto_spec_u16_to_from_le_bytes();
    lemma_auto_spec_u32_to_from_le_bytes();
    lemma_auto_spec_u64_to_from_le_bytes();
    let v = spec_u16_to_le_bytes(version);
    let c = spec_u32_to_le_bytes(assets_count);
    let st = spec_u64_to_le_bytes(index_start);
    let sz = spec_u32_to_le_bytes(index_size);
    let s = header_bytes(version, assets_count, salt, index_start, index_size) + rest;
    assert(s.subrange(0, 4) =~= magic_bytes());
    assert(s.subrange(4, 6) =~= v);
    assert(s.subrange(6, 10) =~= c);
    assert(s.subrange(10, 42) =~= salt);
    assert(s.subrange(42, 50) =~= st);
    assert(s.subrange(50, 54) =~= sz);
}

/// Reading back an encoded record gives the record and the length of its
/// encoding, whatever follows it.
pub proof fn lemma_record_roundtrip(a: AssetView, rest: Seq<u8>)
    requires
        record_wf(a),
    ensures
        record_at(record_bytes(a) + rest) == Some((a, record_bytes(a).len() as int)),
        record_bytes(a).len() == 2 + encode_utf8(a.id).len() + record_tail_len(),
{
    lemma_auto_spec_u16_to_from_le_bytes();
    lemma_auto_spec_u32_to_from_le_bytes();
    lemma_auto_spec_u64_to_from_le_bytes();
    encode_utf8_valid_utf8(a.id);
    encode_utf8_decode_utf8(a.id);
    let ib = encode_utf8(a.id);
    let s = record_bytes(a) + rest;
    let p: int = 2 + ib.len() as int;
    assert(s.subrange(0, 2) =~= spec_u16_to_le_bytes(a.id_len));
    assert(s.subrange(2, p) =~= ib);
    assert(s.subrange(p, p + 8) =~= spec_u64_to_le_bytes(a.start));
    assert(s.subrange(p + 8, p + 12) =~= spec_u32_to_le_bytes(a.size));
    assert(s.subrange(p + 12, p + 16) =~= spec_u32_to_le_bytes(a.size_expected));
    assert(s[p + 16] == a.flags);
    assert(s.subrange(p + 17, p + 49) =~= a.hash);
    let (b, k) = record_at(s).unwrap();
    assert(b.id =~= a.id);
    assert(b.hash =~= a.hash);
}

/// Reading `n` records back from an encoded index gives the records it
/// was written from, whatever follows the index.
pub proof fn lemma_records_roundtrip(assets: Seq<AssetView>, rest: Seq<u8>)
    requires
        forall|i: int| 0 <= i < assets.len() ==> record_wf(#[trigger] assets[i]),
    ensures
        records_at(index_bytes(assets) + rest, assets.len()) == Some(
            (assets, index_bytes(assets).len() as int),
        ),
    decreases assets.len(),
{
    if assets.len() > 0 {
        let init = assets.drop_last();
        let last = assets.last();
        let r = record_bytes(last) + rest;
        assert(record_wf(assets[assets.len() - 1]));
        lemma_records_roundtrip(init, r);
        assert(index_bytes(assets) + rest =~= index_bytes(init) + r);
        let s = index_bytes(assets) + rest;
        let k: int = index_bytes(init).len() as int;
        lemma_record_roundtrip(last, rest);
        assert(s.subrange(k, s.len() as int) =~= r);
        assert(init.push(last) =~= assets);
    }
}


/// Once `records_at` fails it fails for every larger count.
pub proof fn lemma_records_fail_stays(s: Seq<u8>, i: nat, n: nat)
    requires
        i <= n,
        records_at(s, i) is None,
    ensures
        records_at(s, n) is None,
    decreases n - i,
{
    if i < n {
        lemma_records_fail_stays(s, i, (n - 1) as nat);
    }
}

/// The views of a sequence of assets.
pub open spec fn views(v: Seq<Asset>) -> Seq<AssetView> {
    v.map_values(|a: Asset| a@)
}

#[verifier::external_type_specification]
#[verifier::external_body]
pub struct ExFromUtf8Error(std::string::FromUtf8Error);

/// Calls `String::from_utf8` of std. Claimed, as its documentation says:
/// it succeeds exactly when the bytes are valid UTF-8, and then the string
/// holds the characters those bytes encode.
#[verifier::external_body]
fn string_from_utf8(bytes: Vec<u8>) -> (r: Result<String, std::string::FromUtf8Error>)
    ensures
        r is Ok <==> valid_utf8(bytes@),
        r matches Ok(st) ==> st@ == decode_utf8(bytes@),
{
    String::from_utf8(bytes)
}

/// Appends the encoding of one index record to `out`.
pub fn encode_record(out: &mut Vec<u8>, a: &Asset)
    ensures
        final(out)@ == old(out)@ + record_bytes(a@),
        a@.flags & COMPRESSED_BIT == a@.flags,
        a@.hash.len() == 32,
{
    let id_len = u16_to_le_bytes(a.id_len);
    append_bytes(out, id_len.as_slice());
    append_bytes(out, a.id.as_str().as_bytes());
    let start = u64_to_le_bytes(a.start);
    append_bytes(out, start.as_slice());
    let size = u32_to_le_bytes(a.size);
    append_bytes(out, size.as_slice());
    let size_expected = u32_to_le_bytes(a.size_expected);
    append_bytes(out, size_expected.as_slice());
    out.push(a.flags.bits());
    append_bytes(out, a.hash.as_slice());
    assert(out@ =~= old(out)@ + record_bytes(a@));
}

/// The plaintext of the index that lists `assets`.
pub fn encode_index(assets: &[Asset]) -> (r: Vec<u8>)
    ensures
        r@ == index_bytes(views(assets@)),
        forall|i: int|
            0 <= i < assets@.len() && (#[trigger] assets@[i])@.id_len == encode_utf8(assets@[i]@.id).len()
                ==> record_wf(assets@[i]@),
{
    let mut plain: Vec<u8> = Vec::new();
    let mut i: usize = 0;
    while i < assets.len()
        invariant
            i <= assets@.len(),
            plain@ == index_bytes(views(assets@.subrange(0, i as int))),
            forall|j: int|
                0 <= j < i && (#[trigger] assets@[j])@.id_len == encode_utf8(assets@[j]@.id).len()
                    ==> record_wf(assets@[j]@),
        decreases assets@.len() - i,
    {
        proof {
            let next = views(assets@.subrange(0, i + 1));
            assert(next.drop_last() =~= views(assets@.subrange(0, i as int)));
            assert(next.last() == assets@[i as int]@);
        }
        encode_record(&mut plain, &assets[i]);
        i = i + 1;
    }
    assert(assets@.subrange(0, i as int) =~= assets@);
    plain
}

/// Reads the record that starts at `pos` in `s`, and the position just
/// after it.
pub fn parse_record(s: &[u8], pos: usize) -> (r: Option<(Asset, usize)>)
    requires
        pos <= s@.len(),
    ensures
        match record_at(s@.subrange(pos as int, s@.len() as int)) {
            None => r is None,
            Some((a, k)) => r matches Some((x, q)) && x@ == a && q == pos + k,
        },
{
    let ghost t = s@.subrange(pos as int, s@.len() as int);
    let rem: usize = s.len() - pos;
    if rem < 2 {
        return None;
    }
    let id_len: u16 = u16_from_le_bytes(vstd::slice::slice_subrange(s, pos, pos + 2));
    assert(t.subrange(0, 2) =~= s@.subrange(pos as int, pos + 2));
    let idl: usize = id_len as usize;
    if rem - 2 < idl {
        return None;
    }
    let id_bytes = vstd::slice::slice_to_vec(vstd::slice::slice_subrange(s, pos + 2, pos + 2 + idl));
    assert(t.subrange(2, 2 + idl) =~= id_bytes@);
    let id = match string_from_utf8(id_bytes) {
        Ok(id) => id,
        Err(_) => {
            return None;
        },
    };
    if rem - 2 - idl < 49 {
        return None;
    }
    let p: usize = pos + 2 + idl;
    let start: u64 = u64_from_le_bytes(vstd::slice::slice_subrange(s, p, p + 8));
    let size: u32 = u32_from_le_bytes(vstd::slice::slice_subrange(s, p + 8, p + 12));
    let size_expected: u32 = u32_from_le_bytes(vstd::slice::slice_subrange(s, p + 12, p + 16));
    let flags = AssetFlags::from_bits_truncate(s[p + 16]);
    let hash: [u8; 32] = copy_to_array(s, p + 17);
    proof {
        let q = 2 + idl as int;
        assert(t.subrange(q, q + 8) =~= s@.subrange(p as int, p + 8));
        assert(t.subrange(q + 8, q + 12) =~= s@.subrange(p + 8, p + 12));
        assert(t.subrange(q + 12, q + 16) =~= s@.subrange(p + 12, p + 16));
        assert(t[q + 16] == s@[p + 16]);
        assert(t.subrange(q + 17, q + 49) =~= hash@);
    }
    let asset = Asset { id_len, id, start, size, size_expected, flags, hash };
    Some((asset, p + 49))
}

/// Reads `count` records from a decrypted index.
pub fn parse_index(plain: &[u8], count: u32) -> (r: Result<Vec<Asset>, Errors>)
    ensures
        match index_outcome(plain@, count as nat) {
            Ok(v) => r matches Ok(x) && views(x@) == v,
            Err(e) => r == Err::<Vec<Asset>, Errors>(e),
        },
{
    let mut assets: Vec<Asset> = Vec::new();
    let mut pos: usize = 0;
    let mut i: u32 = 0;
    while i < count
        invariant
            i <= count,
            pos <= plain@.len(),
            records_at(plain@, i as nat) == Some((views(assets@), pos as int)),
        decreases count - i,
    {
        if pos >= plain.len() {
            proof {
                assert(records_at(plain@, (i + 1) as nat) is None);
                lemma_records_fail_stays(plain@, (i + 1) as nat, count as nat);
            }
            return Err(Errors::InvalidIndex);
        }
        match parse_record(plain, pos) {
            None => {
                proof {
                    assert(records_at(plain@, (i + 1) as nat) is None);
                    lemma_records_fail_stays(plain@, (i + 1) as nat, count as nat);
                }
                return Err(Errors::InvalidIndex);
            },
            Some((asset, next)) => {
                proof {
                    assert(views(assets@.push(asset)) =~= views(assets@).push(asset@));
                }
                assets.push(asset);
                pos = next;
            },
        }
        i = i + 1;
    }
    Ok(assets)
}

} // verus!
