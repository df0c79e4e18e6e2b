use chacha20poly1305::aead::{Aead, KeyInit};
use zelle::crypto::blake3_hex;
use zelle::{Wallet, WalletError};
use zelle::encoding::{copy_strings, push_bytes, text_eq, u64_from_be_prefix, u64_to_be_bytes};

#[test]
fn be_bytes_of_u64() {
    assert_eq!(u64_to_be_bytes(0x0102_0304_0506_0708), vec![1, 2, 3, 4, 5, 6, 7, 8]);
    assert_eq!(u64_to_be_bytes(0), vec![0; 8]);
    assert_eq!(u64_from_be_prefix(&[1, 2, 3, 4, 5, 6, 7, 8, 9]), 0x0102_0304_0506_0708);
    assert_eq!(u64_from_be_prefix(&u64_to_be_bytes(u64::MAX)), u64::MAX);
}

#[test]
fn texts_compare_by_characters() {
    assert!(text_eq("SYSTEM", "SYSTEM"));
    assert!(!text_eq("SYSTEM", "SYSTEm"));
    assert!(!text_eq("SYSTEM", "SYSTEM "));
    assert!(text_eq("", ""));
    assert!(text_eq("ключ", "ключ"));
}

#[test]
fn bytes_and_strings_are_copied_in_order() {
    let mut buf = vec![1u8];
    push_bytes(&mut buf, &[2, 3]);
    assert_eq!(buf, vec![1, 2, 3]);
    let v = vec!["a".to_string(), "bc".to_string()];
    assert_eq!(copy_strings(&v), v);
}

#[test]
fn blake3_matches_known_digest() {
    assert_eq!(
        blake3_hex(b""),
        "af1349b9f5f9a1a6a0404dea36dcc9499bcb25c9adc112b7cc9a93cae41f3262"
    );
    assert_eq!(blake3_hex(b"abc"), blake3::hash(b"abc").to_hex().to_string());
}

#[test]
fn hex_text_is_read_in_either_case() {
    let upper = Wallet::from_seed_hex("u".to_string(), &"AB".repeat(32), &[0u8; 32]).unwrap();
    assert_eq!(upper.secret_seed_hex(), "ab".repeat(32));
    let lower = Wallet::from_seed_hex("l".to_string(), &"ab".repeat(32), &[0u8; 32]).unwrap();
    assert_eq!(lower.get_address(), upper.get_address());
    assert_eq!(Wallet::from_seed_hex("x".to_string(), &"zz".repeat(32), &[0u8; 32]).err(), Some(WalletError::InvalidHex));
}

#[test]
fn ed25519_matches_rfc8032_vector() {
    let seed = hex::decode("9d61b19deffd5a60ba844af492ec2cc44449c5697b326919703bac031cae7f60").unwrap();
    let w = Wallet::from_seed("v".to_string(), &seed, &[0u8; 32]);
    assert_eq!(hex::encode(w.verifying_key()), "d75a980182b10ab7d54bfed3c964073a0ee172f3daa62325af021a68f707511a");
    assert_eq!(
        hex::encode(w.sign(b"")),
        "e5564300c360ac729086e2cc806e828a84877f1eb8e5d974d873e065224901555fb8821590a33bacc61e39701cf9b46bd25bf5f0595bbe24655141438e7a100b"
    );
}

#[test]
fn sealing_encrypts_and_adds_a_tag() {
    let w = Wallet::from_seed("c".to_string(), &[7u8; 32], &[9u8; 32]);
    let f = w.seal_with_nonce(b"payload", &[], &[3u8; 12]).unwrap();
    let ct = hex::decode(&f.ciphertext_hex).unwrap();
    assert_eq!(ct.len(), b"payload".len() + 16);
    assert_ne!(&ct[..7], b"payload");
    let cipher = chacha20poly1305::ChaCha20Poly1305::new(chacha20poly1305::Key::from_slice(&[9u8; 32]));
    let plain = cipher.decrypt(chacha20poly1305::Nonce::from_slice(&[3u8; 12]), ct.as_ref()).unwrap();
    assert_eq!(plain, b"payload".to_vec());
}

#[test]
fn fresh_randomness_differs() {
    let w = Wallet::from_seed("r".to_string(), &[7u8; 32], &[9u8; 32]);
    let f1 = w.seal(b"x", &[1]).unwrap();
    let f2 = w.seal(b"x", &[1]).unwrap();
    assert_eq!(hex::decode(&f1.nonce_hex).unwrap().len(), 12);
    assert_ne!(f1.nonce_hex, f2.nonce_hex);
    let (a, salt_a) = Wallet::create("a".to_string(), "pw");
    let (b, salt_b) = Wallet::create("b".to_string(), "pw");
    assert_ne!(a.get_address(), b.get_address());
    assert_ne!(salt_a, salt_b);
}
