use zelle::channel::StateChannel;
use zelle::wallet::{EncryptedWalletFile, Wallet, WalletError};
use zelle::BloomFilter;
use zelle::Transaction;

fn wallet(byte: u8, name: &str) -> Wallet {
    Wallet::from_seed(name.to_string(), &[byte; 32], &[1u8; 32])
}

#[test]
fn bloom_filter_starts_empty() {
    let f = BloomFilter::new();
    assert_eq!(f.bits.len(), 32 * 1024);
    assert!(f.bits.iter().all(|&b| b == 0));
    assert!(!f.contains("anything"));
}

#[test]
fn bloom_filter_sets_seven_bits_and_remembers() {
    let mut f = BloomFilter::new();
    f.insert("eph-1");
    let ones: u32 = f.bits.iter().map(|b| b.count_ones()).sum();
    assert!(ones >= 1 && ones <= 7);
    assert!(f.contains("eph-1"));
    f.insert("eph-2");
    assert!(f.contains("eph-1"));
    assert!(f.contains("eph-2"));
    let mut g = BloomFilter::new();
    for i in 0u8..7 {
        let mut h = blake3::Hasher::new();
        h.update(&[i]);
        h.update(b"eph-1");
        let d = h.finalize();
        let mut eight = [0u8; 8];
        eight.copy_from_slice(&d.as_bytes()[0..8]);
        let idx = (u64::from_be_bytes(eight) % (32 * 1024 * 8)) as usize;
        g.bits[idx / 8] |= 1 << (idx % 8);
    }
    let mut h = BloomFilter::new();
    h.insert("eph-1");
    assert_eq!(g.bits, h.bits);
}

#[test]
fn incoming_payments_are_credited_once() {
    let me = "me";
    let tx = |sender: &str, recv: &str| Transaction::new(sender.to_string(), recv.to_string(), 1, vec![]);
    let txs = vec![tx("other", "r1"), tx("me", "r2"), tx("other", "r1"), tx("other", "r3")];
    let mut f = BloomFilter::new();
    assert_eq!(f.accept_incoming(me, &txs), vec![0, 3]);
    assert!(f.contains("r1"));
    assert!(f.contains("r3"));
    assert_eq!(f.accept_incoming(me, &txs), Vec::<usize>::new());
}

#[test]
fn key_from_password_hashes_salt_then_password() {
    let key = Wallet::derive_key_from_password("pw", &[1, 2, 3]);
    let mut h = blake3::Hasher::new();
    h.update(&[1, 2, 3]);
    h.update(b"pw");
    assert_eq!(key, h.finalize().as_bytes().to_vec());
}

#[test]
fn address_is_hex_of_public_key() {
    let seed = hex::decode("9d61b19deffd5a60ba844af492ec2cc44449c5697b326919703bac031cae7f60").unwrap();
    let w = Wallet::from_seed("alice".to_string(), &seed, &[0u8; 32]);
    assert_eq!(w.get_address(), "d75a980182b10ab7d54bfed3c964073a0ee172f3daa62325af021a68f707511a");
    assert_eq!(w.username(), "alice");
    assert_eq!(w.secret_seed_hex(), hex::encode(&seed));
    assert_eq!(hex::encode(w.sign(b"")), "e5564300c360ac729086e2cc806e828a84877f1eb8e5d974d873e065224901555fb8821590a33bacc61e39701cf9b46bd25bf5f0595bbe24655141438e7a100b");
}

#[test]
fn sealed_payload_opens_again() {
    let (w, salt) = Wallet::create("alice".to_string(), "secret");
    assert_eq!(salt.len(), 16);
    let file = w.seal(b"{\"balance\":0.0}", &salt).unwrap();
    assert_eq!(file.salt_hex, hex::encode(&salt));
    assert_eq!(hex::decode(&file.nonce_hex).unwrap().len(), 12);
    assert_eq!(w.open_file(&file).unwrap(), b"{\"balance\":0.0}".to_vec());
    let (key, payload) = Wallet::unlock("secret", &file).unwrap();
    assert_eq!(payload, b"{\"balance\":0.0}".to_vec());
    assert_eq!(key, Wallet::derive_key_from_password("secret", &salt));
    assert_eq!(Wallet::unlock("wrong", &file).err(), Some(WalletError::Decryption));
}

#[test]
fn resealing_keeps_the_salt() {
    let (w, salt) = Wallet::create("carol".to_string(), "pw");
    let first = w.seal(b"one", &salt).unwrap();
    let second = w.reseal(&first, b"two").unwrap();
    assert_eq!(second.salt_hex, first.salt_hex);
    assert_eq!(Wallet::unlock("pw", &second).unwrap().1, b"two".to_vec());
    let broken = EncryptedWalletFile { salt_hex: "q".to_string(), nonce_hex: first.nonce_hex.clone(), ciphertext_hex: first.ciphertext_hex.clone() };
    assert_eq!(w.reseal(&broken, b"x").err(), Some(WalletError::InvalidHex));
}

#[test]
fn seal_with_nonce_is_exact() {
    let w = wallet(2, "bob");
    let f = w.seal_with_nonce(b"abc", &[5, 6], &[0u8; 12]).unwrap();
    assert_eq!(f.salt_hex, "0506");
    assert_eq!(f.nonce_hex, "000000000000000000000000");
    assert_eq!(f.ciphertext_hex.len(), 2 * (3 + 16));
}

#[test]
fn broken_files_give_errors() {
    let w = wallet(2, "bob");
    let good = w.seal_with_nonce(b"abc", &[5, 6], &[0u8; 12]).unwrap();
    let bad_hex = EncryptedWalletFile { salt_hex: good.salt_hex.clone(), nonce_hex: "zz".to_string(), ciphertext_hex: good.ciphertext_hex.clone() };
    assert_eq!(w.open_file(&bad_hex).err(), Some(WalletError::InvalidHex));
    let short_nonce = EncryptedWalletFile { salt_hex: good.salt_hex.clone(), nonce_hex: "0000".to_string(), ciphertext_hex: good.ciphertext_hex.clone() };
    assert_eq!(w.open_file(&short_nonce).err(), Some(WalletError::InvalidLength));
    let mut ct = hex::decode(&good.ciphertext_hex).unwrap();
    ct[0] ^= 0x80;
    let tampered = EncryptedWalletFile { salt_hex: good.salt_hex.clone(), nonce_hex: good.nonce_hex.clone(), ciphertext_hex: hex::encode(ct) };
    assert_eq!(w.open_file(&tampered).err(), Some(WalletError::Decryption));
    let bad_salt = EncryptedWalletFile { salt_hex: "x".to_string(), nonce_hex: good.nonce_hex.clone(), ciphertext_hex: good.ciphertext_hex.clone() };
    assert_eq!(Wallet::unlock("pw", &bad_salt).err(), Some(WalletError::InvalidHex));
}

#[test]
fn wallet_from_seed_hex() {
    let w = Wallet::from_seed_hex("a".to_string(), &"11".repeat(40), &[0u8; 32]).unwrap();
    assert_eq!(w.secret_seed_hex(), "11".repeat(32));
    assert_eq!(Wallet::from_seed_hex("a".to_string(), "11", &[0u8; 32]).err(), Some(WalletError::InvalidLength));
    assert_eq!(Wallet::from_seed_hex("a".to_string(), "1", &[0u8; 32]).err(), Some(WalletError::InvalidHex));
}

fn hash_hex(text: &str) -> String {
    blake3::hash(text.as_bytes()).to_hex().to_string()
}

#[test]
fn channel_opens_with_hash_of_addresses() {
    let a = wallet(1, "a");
    let b = wallet(2, "b");
    let ch = StateChannel::open(&a, &b, 5.0f64.to_bits(), 3.0f64.to_bits());
    assert_eq!(ch.channel_id, hash_hex(&format!("{}{}", a.get_address(), b.get_address())));
    assert_eq!(ch.participant_a, a.get_address());
    assert_eq!(ch.participant_b, b.get_address());
    assert_eq!(f64::from_bits(ch.balance_a), 5.0);
    assert!(ch.local_history.is_empty());
}

#[test]
fn micro_payments_follow_the_payer() {
    let a = wallet(1, "a");
    let b = wallet(2, "b");
    let c = wallet(3, "c");
    let mut ch = StateChannel::open(&a, &b, 5.0f64.to_bits(), 3.0f64.to_bits());
    let a_pays = Some((4.0f64.to_bits(), 4.0f64.to_bits()));
    let b_pays = Some((6.0f64.to_bits(), 2.0f64.to_bits()));
    let entropy = [7u8; 32];
    let decoy = [8u8; 32];
    let tx = ch.send_micro_transaction_with(&a, "dest".to_string(), 1.0f64.to_bits(), a_pays, b_pays, &entropy, &decoy).unwrap();
    assert_eq!(f64::from_bits(ch.balance_a), 4.0);
    assert_eq!(f64::from_bits(ch.balance_b), 4.0);
    assert_eq!(tx.ephemeral_receiver, hash_hex(&format!("dest{}", hex::encode(entropy))));
    assert_eq!(tx.ring_public_keys, vec![a.get_address(), hex::encode(decoy)]);
    let base = Transaction::new(a.get_address(), tx.ephemeral_receiver.clone(), 1.0f64.to_bits(), tx.ring_public_keys.clone());
    assert_eq!(tx.tx_id, hash_hex(&format!("{}{}", base.tx_id, ch.channel_id)));
    assert!(tx.verify_signature());
    assert_eq!(ch.local_history.len(), 1);
    let tx2 = ch.send_micro_transaction_with(&b, "dest".to_string(), 1.0f64.to_bits(), a_pays, b_pays, &entropy, &decoy).unwrap();
    assert_eq!(tx2.sender_address, b.get_address());
    assert_eq!(f64::from_bits(ch.balance_a), 6.0);
    assert!(ch.send_micro_transaction_with(&c, "dest".to_string(), 1.0f64.to_bits(), a_pays, b_pays, &entropy, &decoy).is_none());
    assert!(ch.send_micro_transaction_with(&a, "dest".to_string(), 1.0f64.to_bits(), None, b_pays, &entropy, &decoy).is_none());
    assert_eq!(ch.local_history.len(), 2);
    assert!(ch.send_micro_transaction(&a, "dest".to_string(), 1.0f64.to_bits(), a_pays, b_pays).is_some());
}

#[test]
fn settlement_pays_the_other_participant() {
    let a = wallet(1, "a");
    let b = wallet(2, "b");
    let mut ch = StateChannel::open(&a, &b, 5.0f64.to_bits(), 3.0f64.to_bits());
    let entropy = [1u8; 32];
    let tx = ch.close_and_settle_with(&a, &entropy, &[2u8; 32]);
    assert_eq!(tx.amount, 3.0f64.to_bits());
    assert_eq!(tx.ephemeral_receiver, hash_hex(&format!("{}{}", b.get_address(), hex::encode(entropy))));
    assert_eq!(tx.sender_address, a.get_address());
    let plain = Transaction::new(a.get_address(), tx.ephemeral_receiver.clone(), tx.amount, tx.ring_public_keys.clone());
    assert_eq!(tx.tx_id, plain.tx_id);
    assert!(tx.verify_signature());
    let tx_b = ch.close_and_settle(&b);
    assert_eq!(tx_b.amount, 5.0f64.to_bits());
    assert!(tx_b.verify_signature());
}

#[test]
fn inserting_twice_changes_nothing_more() {
    let mut f = BloomFilter::new();
    f.insert("eph-9");
    let once = f.bits.clone();
    f.insert("eph-9");
    assert_eq!(f.bits, once);
}

#[test]
fn a_longer_filter_works_too() {
    let mut f = BloomFilter { bits: vec![0u8; 32 * 1024 + 16] };
    f.insert("k");
    assert!(f.contains("k"));
    assert!(f.bits[32 * 1024..].iter().all(|&b| b == 0));
}

#[test]
fn ids_and_keys_have_fixed_lengths() {
    let a = wallet(1, "a");
    let b = wallet(2, "b");
    let ch = StateChannel::open(&a, &b, 0, 0);
    assert_eq!(ch.channel_id.len(), 64);
    let tx = Transaction::new("x".to_string(), "r".to_string(), 1, vec![]);
    assert_eq!(tx.tx_id.len(), 64);
    let (w, salt) = Wallet::create("k".to_string(), "pw");
    let file = w.seal(b"p", &salt).unwrap();
    assert_eq!(Wallet::unlock("pw", &file).unwrap().0.len(), 32);
}
