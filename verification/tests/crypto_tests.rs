use cuts_core::crypto::{decrypt, encrypt, get_asset_key, index_aad};
use cuts_core::types::Errors;

use chacha20poly1305::aead::{Aead, Payload};
use chacha20poly1305::{ChaCha20Poly1305, Key, KeyInit, Nonce};

#[test]
fn index_aad_lays_out_header_fields() {
    let salt = [7u8; 32];
    let aad = index_aad(0x0102, 0x0A0B0C0D, &salt, 0x1122334455667788);
    let mut expected = b"CUTS".to_vec();
    expected.extend_from_slice(&[0x02, 0x01]);
    expected.extend_from_slice(&[0x0D, 0x0C, 0x0B, 0x0A]);
    expected.extend_from_slice(&[7u8; 32]);
    expected.extend_from_slice(&[0x88, 0x77, 0x66, 0x55, 0x44, 0x33, 0x22, 0x11]);
    assert_eq!(aad, expected);
    assert_eq!(aad.len(), 50);
}

#[test]
fn encrypt_prefixes_nonce_and_matches_chacha() {
    let key = [3u8; 32];
    let nonce = [9u8; 12];
    let data = b"hello archive";
    let aad = b"id/one";
    let sealed = encrypt(&key, &nonce, data, aad).unwrap();
    assert_eq!(sealed.len(), data.len() + 28);
    assert_eq!(&sealed[..12], &nonce);
    let cipher = ChaCha20Poly1305::new(Key::from_slice(&key));
    let direct = cipher
        .encrypt(Nonce::from_slice(&nonce), Payload { msg: data, aad })
        .unwrap();
    assert_eq!(&sealed[12..], &direct[..]);
    assert_ne!(&sealed[12..12 + data.len()], &data[..]);
}

#[test]
fn decrypt_gives_back_what_encrypt_sealed() {
    let key = [1u8; 32];
    let nonce = [2u8; 12];
    let data = b"some bytes worth keeping";
    let sealed = encrypt(&key, &nonce, data, b"aad").unwrap();
    assert_eq!(decrypt(&key, &sealed, b"aad").unwrap(), data.to_vec());
}

#[test]
fn decrypt_of_empty_message() {
    let key = [1u8; 32];
    let nonce = [2u8; 12];
    let sealed = encrypt(&key, &nonce, b"", b"").unwrap();
    assert_eq!(sealed.len(), 28);
    assert_eq!(decrypt(&key, &sealed, b"").unwrap(), Vec::<u8>::new());
}

#[test]
fn decrypt_rejects_wrong_key_aad_or_tampering() {
    let key = [1u8; 32];
    let nonce = [2u8; 12];
    let sealed = encrypt(&key, &nonce, b"payload", b"aad").unwrap();
    assert_eq!(decrypt(&[9u8; 32], &sealed, b"aad"), Err(Errors::DecryptionFailed));
    assert_eq!(decrypt(&key, &sealed, b"other"), Err(Errors::DecryptionFailed));
    let mut tampered = sealed.clone();
    tampered[14] ^= 1;
    assert_eq!(decrypt(&key, &tampered, b"aad"), Err(Errors::DecryptionFailed));
}

#[test]
fn decrypt_rejects_too_short_input() {
    let key = [1u8; 32];
    assert_eq!(decrypt(&key, &[0u8; 27], b""), Err(Errors::DecryptionFailed));
    assert_eq!(decrypt(&key, &[], b""), Err(Errors::DecryptionFailed));
}

#[test]
fn asset_key_is_argon2id_of_salt_and_id() {
    let salt = [5u8; 32];
    let key = get_asset_key(b"img/a.png", b"hunter2", &salt).unwrap();
    let mut material = salt.to_vec();
    material.extend_from_slice(b"img/a.png");
    let argon2 = argon2::Argon2::new(
        argon2::Algorithm::Argon2id,
        argon2::Version::V0x13,
        argon2::Params::default(),
    );
    let mut expected = [0u8; 32];
    argon2
        .hash_password_into(b"hunter2", &material, &mut expected)
        .unwrap();
    assert_eq!(key, expected);
    assert_ne!(key, salt);
    let other = get_asset_key(b"img/b.png", b"hunter2", &salt).unwrap();
    assert_ne!(key, other);
}
