//! The cryptographic primitives the ledger is built on. Each is a call into
//! an outside crate; the contracts below are what the ledger relies on.
use vstd::prelude::*;
use crate::encoding::{hex_lower, hex_decodable, hex_decoded};
use ed25519_dalek::Signer;
use chacha20poly1305::aead::{Aead, KeyInit};

verus! {

/// The 32-byte BLAKE3 digest of `data`.
pub uninterp spec fn blake3_digest(data: Seq<u8>) -> Seq<u8>;

/// The Ed25519 public key (32 bytes) that belongs to the secret key `seed`.
pub uninterp spec fn ed25519_public_key(seed: Seq<u8>) -> Seq<u8>;

/// The Ed25519 signature (64 bytes) that the secret key `seed` gives `message`.
pub uninterp spec fn ed25519_signature(seed: Seq<u8>, message: Seq<u8>) -> Seq<u8>;

/// The ChaCha20-Poly1305 ciphertext (with its tag) of `plaintext` under `key`
/// and `nonce`, with no associated data.
pub uninterp spec fn chacha_seal(key: Seq<u8>, nonce: Seq<u8>, plaintext: Seq<u8>) -> Seq<u8>;

/// What ChaCha20-Poly1305 decryption of `ciphertext` under `key` and `nonce`
/// gives: the plaintext, or `None` when the tag does not authenticate.
pub uninterp spec fn chacha_open(key: Seq<u8>, nonce: Seq<u8>, ciphertext: Seq<u8>) -> Option<Seq<u8>>;

#[verifier::external_type_specification]
#[verifier::external_body]
pub struct ExFromHexError(hex::FromHexError);

#[verifier::external_type_specification]
#[verifier::external_body]
pub struct ExAeadError(chacha20poly1305::Error);

/// Calls `blake3::hash`; trusted to return the 32 digest bytes, which depend
/// on `data` alone.
#[verifier::external_body]
pub(crate) fn blake3_hash(data: &[u8]) -> (res: Vec<u8>)
    ensures
        res@ == blake3_digest(data@),
        res@.len() == 32,
{
    blake3::hash(data).as_bytes().to_vec()
}

/// Calls `hex::encode`; trusted to give two lowercase hexadecimal digits per
/// byte, high nibble first (as the crate's `HEX_CHARS_LOWER` table does).
#[verifier::external_body]
pub(crate) fn hex_encode(bytes: &[u8]) -> (res: String)
    ensures
        res@ == hex_lower(bytes@),
{
    hex::encode(bytes)
}

/// Calls `hex::decode` on the bytes of `text`; trusted to succeed exactly on an
/// even number of hexadecimal digits of either case, and then to give one
/// byte per digit pair.
#[verifier::external_body]
pub(crate) fn hex_decode(text: &str) -> (res: Result<Vec<u8>, hex::FromHexError>)
    ensures
        res is Ok <==> hex_decodable(vstd::utf8::encode_utf8(text@)),
        res matches Ok(v) ==> v@ == hex_decoded(vstd::utf8::encode_utf8(text@)),
{
    hex::decode(text)
}

/// Calls `ed25519_dalek::SigningKey::verifying_key` on the key made from
/// `seed`; trusted to return the 32 public-key bytes, which depend on `seed`
/// alone.
#[verifier::external_body]
pub(crate) fn ed25519_public_key_of(seed: &[u8]) -> (res: Vec<u8>)
    requires
        seed@.len() == 32,
    ensures
        res@ == ed25519_public_key(seed@),
        res@.len() == 32,
{
    let secret: [u8; 32] = seed.try_into().unwrap();
    ed25519_dalek::SigningKey::from_bytes(&secret).verifying_key().to_bytes().to_vec()
}

/// Calls `ed25519_dalek::Signer::sign` with the key made from `seed`; trusted
/// to return the 64 signature bytes. Ed25519 signing (RFC 8032) is
/// deterministic, so they depend on `seed` and `message` alone.
#[verifier::external_body]
pub(crate) fn ed25519_sign(seed: &[u8], message: &[u8]) -> (res: Vec<u8>)
    requires
        seed@.len() == 32,
    ensures
        res@ == ed25519_signature(seed@, message@),
        res@.len() == 64,
{
    let secret: [u8; 32] = seed.try_into().unwrap();
    ed25519_dalek::SigningKey::from_bytes(&secret).sign(message).to_bytes().to_vec()
}

/// Calls `chacha20poly1305::aead::Aead::encrypt`; trusted to fail exactly
/// when the plaintext reaches `u32::MAX` blocks of 64 bytes, and otherwise to
/// return the ciphertext followed by its 16-byte tag.
#[verifier::external_body]
pub(crate) fn chacha_encrypt(key: &[u8], nonce: &[u8], plaintext: &[u8]) -> (res: Result<Vec<u8>, chacha20poly1305::Error>)
    requires
        key@.len() == 32,
        nonce@.len() == 12,
    ensures
        res is Ok <==> plaintext@.len() / 64 < 0xffff_ffff,
        res matches Ok(c) ==> c@ == chacha_seal(key@, nonce@, plaintext@) && c@.len() == plaintext@.len() + 16,
{
    let cipher = chacha20poly1305::ChaCha20Poly1305::new(chacha20poly1305::Key::from_slice(key));
    cipher.encrypt(chacha20poly1305::Nonce::from_slice(nonce), plaintext)
}

/// Calls `chacha20poly1305::aead::Aead::decrypt`; trusted to return the
/// plaintext that `chacha_open` names, and in particular to give back the
/// plaintext that an encryption under the same key and nonce sealed.
#[verifier::external_body]
pub(crate) fn chacha_decrypt(key: &[u8], nonce: &[u8], ciphertext: &[u8]) -> (res: Result<Vec<u8>, chacha20poly1305::Error>)
    requires
        key@.len() == 32,
        nonce@.len() == 12,
    ensures
        res is Ok <==> chacha_open(key@, nonce@, ciphertext@) is Some,
        res matches Ok(p) ==> p@ == chacha_open(key@, nonce@, ciphertext@)->0,
        res matches Ok(q) ==> forall|p: Seq<u8>|
            p.len() / 64 < 0xffff_ffff && ciphertext@ == #[trigger] chacha_seal(key@, nonce@, p) ==> q@ == p,
        res is Err ==> forall|p: Seq<u8>|
            p.len() / 64 < 0xffff_ffff ==> ciphertext@ != #[trigger] chacha_seal(key@, nonce@, p),
{
    let cipher = chacha20poly1305::ChaCha20Poly1305::new(chacha20poly1305::Key::from_slice(key));
    cipher.decrypt(chacha20poly1305::Nonce::from_slice(nonce), ciphertext)
}

/// Calls `rand::RngCore::fill_bytes` on the operating system's generator.
/// Nothing is promised of the bytes but their number; the call panics if the
/// operating system cannot supply randomness.
#[verifier::external_body]
pub(crate) fn random_bytes(n: usize) -> (res: Vec<u8>)
    ensures
        res@.len() == n,
{
    let mut buf = vec![0u8; n];
    rand::RngCore::fill_bytes(&mut rand::rngs::OsRng, &mut buf);
    buf
}


/// Lowercase hexadecimal text of the BLAKE3 digest of `data`.
pub open spec fn hash_hex(data: Seq<u8>) -> Seq<char> {
    hex_lower(blake3_digest(data))
}

/// The BLAKE3 digest of `data` as 64 lowercase hexadecimal digits.
pub fn blake3_hex(data: &[u8]) -> (res: String)
    ensures
        res@ == hash_hex(data@),
        res@.len() == 64,
{
    let digest = blake3_hash(data);
    hex_encode(digest.as_slice())
}

} // verus!
