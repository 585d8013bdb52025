//! Key derivation and authenticated encryption of archive contents.

use vstd::prelude::*;
use vstd::bytes::*;

use argon2::{Algorithm, Argon2, Params, Version};
use chacha20poly1305::aead::{Aead, Payload};
use chacha20poly1305::{ChaCha20Poly1305, Key, KeyInit, Nonce};

use crate::buf::append_bytes;
use crate::format::index_aad_bytes;
use crate::format::magic_bytes;
use crate::types::Errors;

verus! {

/// The associated data that binds an encrypted index to the header
/// fields it was written with.
pub fn index_aad(version: u16, assets_count: u32, salt: &[u8; 32], index_start: u64) -> (aad: Vec<u8>)
    ensures
        aad@ == index_aad_bytes(version, assets_count, salt@, index_start),
        aad@.len() == 50,
{
    proof {
        lemma_auto_spec_u16_to_from_le_bytes();
        lemma_auto_spec_u32_to_from_le_bytes();
        lemma_auto_spec_u64_to_from_le_bytes();
    }
    let mut aad: Vec<u8> = Vec::with_capacity(4 + 2 + 4 + 32 + 8);
    aad.push(0x43u8);
    aad.push(0x55u8);
    aad.push(0x54u8);
    aad.push(0x53u8);
    assert(aad@ == magic_bytes());
    let v = u16_to_le_bytes(version);
    append_bytes(&mut aad, v.as_slice());
    let c = u32_to_le_bytes(assets_count);
    append_bytes(&mut aad, c.as_slice());
    append_bytes(&mut aad, salt.as_slice());
    let s = u64_to_le_bytes(index_start);
    append_bytes(&mut aad, s.as_slice());
    aad
}


#[verifier::external_type_specification]
#[verifier::external_body]
pub struct ExArgon2Error(argon2::Error);

#[verifier::external_type_specification]
#[verifier::external_body]
pub struct ExAeadError(chacha20poly1305::aead::Error);

/// The 32 bytes that Argon2id (version 0x13, default parameters) derives
/// from `password` and `salt`.
pub uninterp spec fn argon2id_key(password: Seq<u8>, salt: Seq<u8>) -> Seq<u8>;

/// The ChaCha20-Poly1305 ciphertext (encrypted bytes followed by the
/// 16-byte tag) of `plaintext` under `key`, `nonce` and `aad`.
pub uninterp spec fn chacha20poly1305_seal(key: Seq<u8>, nonce: Seq<u8>, plaintext: Seq<u8>, aad: Seq<u8>) -> Seq<u8>;

/// What ChaCha20-Poly1305 decryption of `ciphertext` under `key`, `nonce`
/// and `aad` yields: the plaintext, or `None` when it does not authenticate.
pub uninterp spec fn chacha20poly1305_open(
    key: Seq<u8>,
    nonce: Seq<u8>,
    ciphertext: Seq<u8>,
    aad: Seq<u8>,
) -> Option<Seq<u8>>;

/// The longest message ChaCha20-Poly1305 encrypts: its keystream starts
/// at block 1 of a 32-bit block counter, which leaves `u32::MAX - 1`
/// blocks of 64 bytes.
pub const MAX_SEALED_LEN: u64 = 274877906816;

/// Whether ChaCha20-Poly1305 encrypts a message of this length.
pub open spec fn sealable(m: Seq<u8>) -> bool {
    m.len() <= MAX_SEALED_LEN
}

/// Calls `Argon2::hash_password_into` of the `argon2` crate with Argon2id,
/// version 0x13 and the default parameters, into a 32-byte output.
/// Claimed: it fails exactly when the password is longer than
/// `0xFFFF_FFFF` bytes or the salt is shorter than 8 or longer than
/// `0xFFFF_FFFF` bytes (the crate's `verify_inputs`), and otherwise
/// returns the Argon2id output for these inputs.
#[verifier::external_body]
fn argon2id_hash(password: &[u8], salt: &[u8]) -> (r: Result<[u8; 32], argon2::Error>)
    ensures
        r is Ok <==> (password@.len() <= 0xFFFF_FFFF && 8 <= salt@.len() <= 0xFFFF_FFFF),
        r matches Ok(k) ==> k@ == argon2id_key(password@, salt@),
{
    let argon2 = Argon2::new(Algorithm::Argon2id, Version::V0x13, Params::default());
    let mut key = [0u8; 32];
    argon2.hash_password_into(password, salt, &mut key)?;
    Ok(key)
}

/// Calls `Aead::encrypt` of `ChaCha20Poly1305` (crate `chacha20poly1305`).
/// Only messages that fit the keystream are passed: a longer one either
/// fails (`encrypt_in_place_detached`) or panics in `apply_keystream`
/// (the `chacha20` counter leaves `u32::MAX - 1` blocks after the seek to
/// block 1). Claimed: on such a message it succeeds and returns the
/// ciphertext, 16 bytes longer than the message.
#[verifier::external_body]
fn aead_seal(key: &[u8; 32], nonce: &[u8; 12], msg: &[u8], aad: &[u8]) -> (r: Result<Vec<u8>, chacha20poly1305::aead::Error>)
    requires
        sealable(msg@),
    ensures
        r is Ok,
        r matches Ok(c) ==> c@ == chacha20poly1305_seal(key@, nonce@, msg@, aad@),
        r matches Ok(c) ==> c@.len() == msg@.len() + 16,
{
    let cipher = ChaCha20Poly1305::new(Key::from_slice(key));
    cipher.encrypt(Nonce::from_slice(nonce), Payload { msg, aad })
}

/// Calls `Aead::decrypt` of `ChaCha20Poly1305` (crate `chacha20poly1305`).
/// Only ciphertexts whose message part fits the keystream are passed (a
/// longer authentic one would make `apply_keystream` panic). Claimed: it
/// returns the plaintext (16 bytes shorter than the
/// ciphertext) exactly when the ciphertext authenticates, and a
/// ciphertext that `Aead::encrypt` produced under the same key, nonce and
/// associated data decrypts to the message it was made from, as the
/// crate's documentation shows.
#[verifier::external_body]
fn aead_open(key: &[u8; 32], nonce: &[u8], ct: &[u8], aad: &[u8]) -> (r: Result<Vec<u8>, chacha20poly1305::aead::Error>)
    requires
        nonce@.len() == 12,
        ct@.len() <= MAX_SEALED_LEN + 16,
    ensures
        r is Ok <==> chacha20poly1305_open(key@, nonce@, ct@, aad@) is Some,
        r matches Ok(p) ==> chacha20poly1305_open(key@, nonce@, ct@, aad@) == Some(p@),
        r matches Ok(p) ==> p@.len() + 16 == ct@.len(),
        (exists|m: Seq<u8>| sealable(m) && #[trigger] chacha20poly1305_seal(key@, nonce@, m, aad@) == ct@)
            ==> r is Ok,
        r matches Ok(p) ==> forall|m: Seq<u8>|
            sealable(m) && #[trigger] chacha20poly1305_seal(key@, nonce@, m, aad@) == ct@ ==> p@ == m,
{
    let cipher = ChaCha20Poly1305::new(Key::from_slice(key));
    cipher.decrypt(Nonce::from_slice(nonce), Payload { msg: ct, aad })
}

/// The bytes `encrypt` stores: the nonce followed by the ciphertext.
pub open spec fn sealed_bytes(key: Seq<u8>, nonce: Seq<u8>, plaintext: Seq<u8>, aad: Seq<u8>) -> Seq<u8> {
    nonce + chacha20poly1305_seal(key, nonce, plaintext, aad)
}

/// What `decrypt` recovers from stored bytes: `None` when they are too
/// short to hold a nonce and a tag, too long to hold a message that can
/// be encrypted, or when they do not authenticate.
pub open spec fn opened(key: Seq<u8>, data: Seq<u8>, aad: Seq<u8>) -> Option<Seq<u8>> {
    if data.len() < 28 || data.len() > MAX_SEALED_LEN + 28 {
        None
    } else {
        chacha20poly1305_open(key, data.subrange(0, 12), data.subrange(12, data.len() as int), aad)
    }
}

/// Derives a 32-byte key from a password with Argon2id, salted with the
/// archive salt followed by `id`.
pub fn get_asset_key(id: &[u8], password: &[u8], salt: &[u8; 32]) -> (r: Result<[u8; 32], Errors>)
    ensures
        r is Ok <==> (password@.len() <= 0xFFFF_FFFF && salt@.len() + id@.len() <= 0xFFFF_FFFF),
        r matches Ok(k) ==> k@ == argon2id_key(password@, salt@ + id@),
        r matches Err(e) ==> e == Errors::EncryptionFailed,
{
    let mut material: Vec<u8> = Vec::new();
    append_bytes(&mut material, salt.as_slice());
    append_bytes(&mut material, id);
    match argon2id_hash(password, material.as_slice()) {
        Ok(key) => Ok(key),
        Err(_) => Err(Errors::EncryptionFailed),
    }
}

/// What `encrypt` may return: the nonce followed by the ciphertext when
/// the message is not too long, `EncryptionFailed` otherwise.
pub open spec fn encrypt_outcome(
    key: Seq<u8>,
    nonce: Seq<u8>,
    data: Seq<u8>,
    aad: Seq<u8>,
    r: Result<Seq<u8>, Errors>,
) -> bool {
    if sealable(data) {
        &&& r == Ok::<Seq<u8>, Errors>(sealed_bytes(key, nonce, data, aad))
        &&& sealed_bytes(key, nonce, data, aad).len() == data.len() + 28
    } else {
        r == Err::<Seq<u8>, Errors>(Errors::EncryptionFailed)
    }
}

/// What `decrypt` may return: the plaintext when the stored bytes hold a
/// nonce and a ciphertext that authenticates, `DecryptionFailed`
/// otherwise; bytes stored by `encrypt` give back the message.
pub open spec fn decrypt_outcome(key: Seq<u8>, data: Seq<u8>, aad: Seq<u8>, r: Result<Seq<u8>, Errors>) -> bool {
    &&& r == match opened(key, data, aad) {
        Some(p) => Ok(p),
        None => Err(Errors::DecryptionFailed),
    }
    &&& forall|n: Seq<u8>, m: Seq<u8>|
        n.len() == 12 && sealable(m) && data.len() == m.len() + 28 && data == #[trigger] sealed_bytes(key, n, m, aad)
            ==> r == Ok::<Seq<u8>, Errors>(m)
}

/// The bytes of a successful result, or its error.
pub open spec fn vec_result(r: Result<Vec<u8>, Errors>) -> Result<Seq<u8>, Errors> {
    match r {
        Ok(v) => Ok(v@),
        Err(e) => Err(e),
    }
}

/// Encrypts `data` under `key`, `nonce` and `aad`; the result is the
/// nonce followed by the ciphertext and its tag.
pub fn encrypt(key: &[u8; 32], nonce: &[u8; 12], data: &[u8], aad: &[u8]) -> (r: Result<Vec<u8>, Errors>)
    ensures
        encrypt_outcome(key@, nonce@, data@, aad@, vec_result(r)),
{
    if data.len() as u64 > MAX_SEALED_LEN {
        return Err(Errors::EncryptionFailed);
    }
    match aead_seal(key, nonce, data, aad) {
        Ok(cipher) => {
            let mut result: Vec<u8> = Vec::new();
            append_bytes(&mut result, nonce.as_slice());
            append_bytes(&mut result, cipher.as_slice());
            Ok(result)
        },
        Err(_) => Err(Errors::EncryptionFailed),
    }
}

/// Splits stored bytes into nonce and ciphertext and decrypts them under
/// `key` and `aad`.
pub fn decrypt(key: &[u8; 32], data: &[u8], aad: &[u8]) -> (r: Result<Vec<u8>, Errors>)
    ensures
        decrypt_outcome(key@, data@, aad@, vec_result(r)),
{
    if data.len() < 12 + 16 || data.len() as u64 > MAX_SEALED_LEN + 28 {
        return Err(Errors::DecryptionFailed);
    }
    let nonce = vstd::slice::slice_subrange(data, 0, 12);
    let cipher = vstd::slice::slice_subrange(data, 12, data.len());
    proof {
        assert forall|n: Seq<u8>, m: Seq<u8>|
            n.len() == 12 && sealable(m) && data@.len() == m.len() + 28 && data@ == #[trigger] sealed_bytes(key@, n, m, aad@)
            implies chacha20poly1305_seal(key@, nonce@, m, aad@) == cipher@ by {
            assert(nonce@ == n);
            assert(cipher@ == chacha20poly1305_seal(key@, n, m, aad@));
        }
    }
    match aead_open(key, nonce, cipher, aad) {
        Ok(plain) => Ok(plain),
        Err(_) => Err(Errors::DecryptionFailed),
    }
}


/// Decrypting what `encrypt` returned, under the same key and associated
/// data, gives back the message.
pub proof fn law_decrypt_encrypted(
    key: Seq<u8>,
    nonce: Seq<u8>,
    message: Seq<u8>,
    aad: Seq<u8>,
    sealed: Seq<u8>,
    r: Result<Seq<u8>, Errors>,
)
    requires
        nonce.len() == 12,
        encrypt_outcome(key, nonce, message, aad, Ok(sealed)),
        decrypt_outcome(key, sealed, aad, r),
    ensures
        r == Ok::<Seq<u8>, Errors>(message),
{
    assert(sealed.len() >= 28);
}

} // verus!
