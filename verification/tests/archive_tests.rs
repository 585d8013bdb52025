use cuts_core::archive::pack_archive;
use cuts_core::format::{encode_index, parse_index};
use cuts_core::reader::{decompress, finish_asset, read_asset, read_header, read_index};
use cuts_core::types::{Asset, AssetFlags, Errors, HEADER_LEN, VERSION};
use cuts_core::writer::{
    write_asset, write_asset_with_nonce, write_at, write_index, write_index_with_nonce,
    write_placeholder,
};

fn sample_asset(id: &str) -> Asset {
    Asset {
        id_len: id.len() as u16,
        id: id.to_string(),
        start: 54,
        size: 100,
        size_expected: 72,
        flags: AssetFlags::compressed(),
        hash: [0xAB; 32],
    }
}

#[test]
fn placeholder_header_reads_back() {
    let mut out = Vec::new();
    write_placeholder(&mut out, VERSION, 3, [4u8; 32]).unwrap();
    assert_eq!(out.len(), HEADER_LEN);
    let h = read_header(&out).unwrap();
    assert_eq!(&h.magic, b"CUTS");
    assert_eq!(h.version, VERSION);
    assert_eq!(h.assets_count, 3);
    assert_eq!(h.salt, [4u8; 32]);
    assert_eq!(h.index_start, 0);
    assert_eq!(h.index_size, 0);
}

#[test]
fn placeholder_bytes_are_the_header_layout() {
    let mut out = vec![0xEE];
    write_placeholder(&mut out, 0x0201, 0x06050403, [0x11; 32]).unwrap();
    let mut expected = vec![0xEE, b'C', b'U', b'T', b'S', 0x01, 0x02, 0x03, 0x04, 0x05, 0x06];
    expected.extend_from_slice(&[0x11; 32]);
    expected.extend_from_slice(&[0u8; 12]);
    assert_eq!(out, expected);
}

#[test]
fn header_errors() {
    assert!(matches!(read_header(b"CU"), Err(Errors::InvalidHeader)));
    assert!(matches!(read_header(b"ABCDxxxxxxxx"), Err(Errors::InvalidFileType)));
    assert!(matches!(read_header(b"CUTS\x01"), Err(Errors::InvalidHeader)));
    let mut out = Vec::new();
    write_placeholder(&mut out, VERSION + 1, 0, [0u8; 32]).unwrap();
    assert!(matches!(read_header(&out), Err(Errors::InCompatibleVersion(v)) if v == VERSION + 1));
    let mut out = Vec::new();
    write_placeholder(&mut out, VERSION, 0, [0u8; 32]).unwrap();
    assert!(matches!(read_header(&out[..53]), Err(Errors::InvalidHeader)));
}

#[test]
fn index_records_round_trip() {
    let assets = vec![sample_asset("a.txt"), sample_asset("dir/b é.bin")];
    let plain = encode_index(&assets);
    assert_eq!(plain.len(), (51 + 5) + (51 + "dir/b é.bin".len()));
    let parsed = parse_index(&plain, 2).unwrap();
    assert_eq!(parsed.len(), 2);
    assert_eq!(parsed[0].id, "a.txt");
    assert_eq!(parsed[1].id, "dir/b é.bin");
    assert_eq!(parsed[1].id_len as usize, "dir/b é.bin".len());
    assert_eq!(parsed[0].start, 54);
    assert_eq!(parsed[0].size, 100);
    assert_eq!(parsed[0].size_expected, 72);
    assert_eq!(parsed[0].flags.bits(), 1);
    assert_eq!(parsed[0].hash, [0xAB; 32]);
    assert!(parse_index(&plain, 3).is_err());
    assert!(parse_index(&plain, 0).unwrap().is_empty());
}

#[test]
fn index_record_with_invalid_utf8_is_refused() {
    let mut plain = vec![2u8, 0u8, 0xFF, 0xFE];
    plain.extend_from_slice(&[0u8; 49]);
    assert!(matches!(parse_index(&plain, 1), Err(Errors::InvalidIndex)));
    let mut ok = vec![2u8, 0u8, b'o', b'k'];
    ok.extend_from_slice(&[0u8; 49]);
    assert_eq!(parse_index(&ok, 1).unwrap()[0].id, "ok");
}

#[test]
fn index_flags_keep_only_known_bits() {
    let mut plain = vec![1u8, 0u8, b'x'];
    plain.extend_from_slice(&[0u8; 16]);
    plain.push(0xFF);
    plain.extend_from_slice(&[0u8; 32]);
    assert_eq!(parse_index(&plain, 1).unwrap()[0].flags.bits(), 1);
}

#[test]
fn asset_round_trip_uncompressed_and_compressed() {
    let key = [8u8; 32];
    let mut out = Vec::new();
    write_placeholder(&mut out, VERSION, 2, [1u8; 32]).unwrap();
    let plain_data = b"plain contents".to_vec();
    let packed_data = vec![b'z'; 4096];
    let a = write_asset(&mut out, "p.txt", &plain_data, false, &key).unwrap();
    let b = write_asset(&mut out, "z.bin", &packed_data, true, &key).unwrap();
    assert_eq!(a.start, 54);
    assert_eq!(a.size as usize, plain_data.len() + 28);
    assert_eq!(b.start, 54 + a.size as u64);
    assert!((b.size as usize) < packed_data.len());
    assert_eq!(b.size_expected, 4096);
    assert_eq!(b.flags.bits(), 1);
    assert_eq!(a.flags.bits(), 0);
    assert_eq!(a.hash, *blake3::hash(&plain_data).as_bytes());
    assert_eq!(read_asset(&out, &a, &key).unwrap(), plain_data);
    assert_eq!(read_asset(&out, &b, &key).unwrap(), packed_data);
}

#[test]
fn asset_read_errors() {
    let key = [8u8; 32];
    let mut out = Vec::new();
    let a = write_asset_with_nonce(&mut out, "f", b"data", false, &key, &[0u8; 12]).unwrap();
    assert_eq!(read_asset(&out, &a, &[7u8; 32]), Err(Errors::DecryptionFailed));
    let mut far = a.clone();
    far.start = 1000;
    assert_eq!(read_asset(&out, &far, &key), Err(Errors::InvalidAsset));
    let mut long = a.clone();
    long.size += 1;
    assert_eq!(read_asset(&out, &long, &key), Err(Errors::InvalidAsset));
    let mut wrong_hash = a.clone();
    wrong_hash.hash[0] ^= 1;
    assert_eq!(read_asset(&out, &wrong_hash, &key), Err(Errors::AssetHashMismatch));
    let mut renamed = a.clone();
    renamed.id = "g".to_string();
    assert_eq!(read_asset(&out, &renamed, &key), Err(Errors::DecryptionFailed));
    let mut marked = a.clone();
    marked.flags = AssetFlags::compressed();
    assert_eq!(read_asset(&out, &marked, &key), Err(Errors::DecompressFailed));
}

#[test]
fn decompress_limits() {
    let mut asset = sample_asset("x");
    asset.size_expected = 1024 * 1024 * 1024 + 1;
    assert_eq!(decompress(vec![0u8; 10], &asset), Err(Errors::DecompressFailed));
    let mut key_out = Vec::new();
    let key = [2u8; 32];
    let a = write_asset(&mut key_out, "x", &[5u8; 300], true, &key).unwrap();
    let mut smaller = a.clone();
    smaller.size_expected = 299;
    assert_eq!(read_asset(&key_out, &smaller, &key), Err(Errors::DecompressFailed));
}

#[test]
fn finish_asset_checks_hash() {
    let mut asset = sample_asset("x");
    asset.flags = AssetFlags::empty();
    asset.hash = *blake3::hash(b"abc").as_bytes();
    assert_eq!(finish_asset(b"abc".to_vec(), &asset).unwrap(), b"abc".to_vec());
    assert_eq!(finish_asset(b"abd".to_vec(), &asset), Err(Errors::AssetHashMismatch));
}

#[test]
fn index_round_trip_through_archive() {
    let key = [6u8; 32];
    let salt = [9u8; 32];
    let mut out = Vec::new();
    write_placeholder(&mut out, VERSION, 2, salt).unwrap();
    let a = write_asset(&mut out, "one", b"first", true, &key).unwrap();
    let b = write_asset(&mut out, "two/three", b"second", false, &key).unwrap();
    let before = out.len();
    write_index(&mut out, 0, VERSION, &[a.clone(), b.clone()], salt, &key).unwrap();
    let h = read_header(&out).unwrap();
    assert_eq!(h.assets_count, 2);
    assert_eq!(h.index_start, before as u64);
    assert_eq!(h.index_size as usize, out.len() - before);
    let assets = read_index(&out, &h, &key).unwrap();
    assert_eq!(assets.len(), 2);
    assert_eq!(assets[0].id, "one");
    assert_eq!(assets[1].id, "two/three");
    assert_eq!(read_asset(&out, &assets[0], &key).unwrap(), b"first".to_vec());
    assert_eq!(read_asset(&out, &assets[1], &key).unwrap(), b"second".to_vec());
}

#[test]
fn index_read_errors() {
    let key = [6u8; 32];
    let salt = [9u8; 32];
    let mut out = Vec::new();
    write_placeholder(&mut out, VERSION, 1, salt).unwrap();
    let a = write_asset(&mut out, "one", b"first", false, &key).unwrap();
    write_index_with_nonce(&mut out, 0, VERSION, &[a], salt, &key, &[3u8; 12]).unwrap();
    let h = read_header(&out).unwrap();
    assert!(matches!(read_index(&out, &h, &[0u8; 32]), Err(Errors::DecryptionFailed)));
    let mut short = h;
    short.index_start = out.len() as u64 + 1;
    assert!(matches!(read_index(&out, &short, &key), Err(Errors::InvalidIndex)));
    let h = read_header(&out).unwrap();
    let mut past = h;
    past.index_size += 1;
    assert!(matches!(read_index(&out, &past, &key), Err(Errors::InvalidIndex)));
    let h = read_header(&out).unwrap();
    let mut more = h;
    more.assets_count = 2;
    assert!(matches!(read_index(&out, &more, &key), Err(Errors::DecryptionFailed)));
}

#[test]
fn index_with_fewer_records_than_declared_is_invalid() {
    let key = [6u8; 32];
    let salt = [9u8; 32];
    let mut out = Vec::new();
    write_placeholder(&mut out, VERSION, 2, salt).unwrap();
    let start = out.len() as u64;
    let plain = encode_index(&[sample_asset("only")]);
    let aad = cuts_core::crypto::index_aad(VERSION, 2, &salt, start);
    let sealed = cuts_core::crypto::encrypt(&key, &[1u8; 12], &plain, &aad).unwrap();
    out.extend_from_slice(&sealed);
    let mut header = Vec::new();
    write_placeholder(&mut header, VERSION, 2, salt).unwrap();
    header[42..50].copy_from_slice(&start.to_le_bytes());
    header[50..54].copy_from_slice(&(sealed.len() as u32).to_le_bytes());
    out[..54].copy_from_slice(&header);
    let h = read_header(&out).unwrap();
    assert!(matches!(read_index(&out, &h, &key), Err(Errors::InvalidIndex)));
}

#[test]
fn write_at_overwrites_and_pads() {
    let mut out = vec![1u8, 2, 3];
    write_at(&mut out, 1, &[9, 9]);
    assert_eq!(out, vec![1, 9, 9]);
    write_at(&mut out, 2, &[7, 7]);
    assert_eq!(out, vec![1, 9, 7, 7]);
    write_at(&mut out, 6, &[5]);
    assert_eq!(out, vec![1, 9, 7, 7, 0, 0, 5]);
}

#[test]
fn pack_archive_reads_back_every_file() {
    let key = [4u8; 32];
    let salt = [2u8; 32];
    let files = vec![
        ("docs/readme.txt".to_string(), b"read me please".to_vec()),
        ("img/pixel.bin".to_string(), vec![0u8; 2000]),
        ("empty".to_string(), Vec::new()),
    ];
    let file = pack_archive(&files, salt, &key).unwrap();
    let h = read_header(&file).unwrap();
    assert_eq!(h.version, VERSION);
    assert_eq!(h.assets_count, 3);
    assert_eq!(h.salt, salt);
    assert_eq!(h.index_start + h.index_size as u64, file.len() as u64);
    let assets = read_index(&file, &h, &key).unwrap();
    assert_eq!(assets.len(), 3);
    let mut next = HEADER_LEN as u64;
    for (asset, (id, data)) in assets.iter().zip(files.iter()) {
        assert_eq!(&asset.id, id);
        assert_eq!(asset.id_len as usize, id.len());
        assert_eq!(asset.flags.bits(), 1);
        assert_eq!(asset.start, next);
        assert_eq!(asset.size_expected as usize, data.len());
        assert_eq!(asset.hash, *blake3::hash(data).as_bytes());
        next = asset.start + asset.size as u64;
        assert_eq!(&read_asset(&file, asset, &key).unwrap(), data);
    }
    assert_eq!(next, h.index_start);
}

#[test]
fn pack_archive_of_nothing() {
    let key = [4u8; 32];
    let file = pack_archive(&[], [0u8; 32], &key).unwrap();
    let h = read_header(&file).unwrap();
    assert_eq!(h.assets_count, 0);
    assert_eq!(h.index_size, 28);
    assert!(read_index(&file, &h, &key).unwrap().is_empty());
}

#[test]
fn index_with_header_written_after_it() {
    let key = [6u8; 32];
    let salt = [3u8; 32];
    let mut out = Vec::new();
    let a = write_asset(&mut out, "late", b"header comes last", false, &key).unwrap();
    let index_start = out.len();
    write_index(&mut out, 500, VERSION, &[a], salt, &key).unwrap();
    assert_eq!(out.len(), 500 + HEADER_LEN);
    let h = read_header(&out[500..]).unwrap();
    assert_eq!(h.index_start, index_start as u64);
    let assets = read_index(&out, &h, &key).unwrap();
    assert_eq!(assets[0].id, "late");
    assert_eq!(read_asset(&out, &assets[0], &key).unwrap(), b"header comes last".to_vec());
}
