use zelle::blockchain::{has_zero_prefix, BLOCK_TIMESTAMP, GENESIS_TIMESTAMP};
use zelle::transaction::RingSignature;
use zelle::{Blockchain, Transaction, Wallet, MAX_SUPPLY_BITS};

fn ring(keys: &[&str]) -> Vec<String> {
    keys.iter().map(|k| k.to_string()).collect()
}

fn expected_tx_id(receiver: &str, amount: u64, keys: &[&str]) -> String {
    let mut h = blake3::Hasher::new();
    h.update(receiver.as_bytes());
    h.update(&amount.to_be_bytes());
    for k in keys {
        h.update(k.as_bytes());
    }
    h.finalize().to_hex().to_string()
}

fn expected_challenge(tx_id: &str, keys: &[&str]) -> String {
    let mut h = blake3::Hasher::new();
    h.update(tx_id.as_bytes());
    for k in keys {
        h.update(k.as_bytes());
    }
    h.finalize().to_hex().to_string()
}

fn wallet(byte: u8, name: &str) -> Wallet {
    Wallet::from_seed(name.to_string(), &[byte; 32], &[0u8; 32])
}

fn signed_tx(w: &Wallet, receiver: &str, amount: f64) -> Transaction {
    let mut tx = Transaction::new(w.get_address(), receiver.to_string(), amount.to_bits(), ring(&[&w.get_address(), "decoy"]));
    let sig = w.sign(tx.tx_id.as_bytes());
    tx.attach_signature(&sig);
    tx
}

#[test]
fn supply_is_one_million() {
    assert_eq!(f64::from_bits(MAX_SUPPLY_BITS), 1_000_000.0);
}

#[test]
fn transaction_id_hashes_receiver_amount_and_ring() {
    let amount = 12.5f64.to_bits();
    let tx = Transaction::new("alice".to_string(), "eph".to_string(), amount, ring(&["k1", "k2"]));
    assert_eq!(tx.tx_id, expected_tx_id("eph", amount, &["k1", "k2"]));
    assert_eq!(tx.calculate_hash(), tx.tx_id);
    assert!(tx.signature.is_none());
    assert_eq!(tx.sender_address, "alice");
    let other = Transaction::new("bob".to_string(), "eph".to_string(), amount, ring(&["k1", "k2"]));
    assert_eq!(other.tx_id, tx.tx_id);
}

#[test]
fn system_emission_needs_no_signature() {
    let tx = Transaction::new("SYSTEM".to_string(), "dev".to_string(), MAX_SUPPLY_BITS, ring(&["GENESIS_POINT"]));
    assert!(tx.verify_signature());
}

#[test]
fn unsigned_transaction_is_refused() {
    let tx = Transaction::new("alice".to_string(), "eph".to_string(), 1, ring(&["k1"]));
    assert!(!tx.verify_signature());
}

#[test]
fn ring_signature_checks() {
    let mut tx = Transaction::new("alice".to_string(), "eph".to_string(), 1, ring(&["k1", "k2"]));
    let challenge = expected_challenge(&tx.tx_id, &["k1", "k2"]);
    tx.signature = Some(RingSignature { challenge: challenge.clone(), responses: ring(&["r1", "r2"]) });
    assert!(tx.verify_signature());
    tx.signature = Some(RingSignature { challenge: challenge.clone(), responses: ring(&["r1"]) });
    assert!(!tx.verify_signature());
    tx.signature = Some(RingSignature { challenge: challenge.clone(), responses: ring(&["r1", ""]) });
    assert!(!tx.verify_signature());
    tx.signature = Some(RingSignature { challenge: "00".to_string(), responses: ring(&["r1", "r2"]) });
    assert!(!tx.verify_signature());
}

#[test]
fn attached_signature_is_accepted() {
    let w = wallet(3, "alice");
    let tx = signed_tx(&w, "eph", 2.0);
    let sig = tx.signature.as_ref().unwrap();
    assert_eq!(sig.challenge, expected_challenge(&tx.tx_id, &[&w.get_address(), "decoy"]));
    let expected_response = hex::encode(w.sign(tx.tx_id.as_bytes()));
    assert_eq!(sig.responses, vec![expected_response.clone(), expected_response]);
    assert!(tx.verify_signature());
}

#[test]
fn genesis_is_minted_once() {
    let mut chain = Blockchain::new();
    assert_eq!(chain.difficulty, 3);
    assert!(chain.init_genesis("dev".to_string(), b"[]"));
    assert!(chain.is_genesis_minted);
    assert_eq!(chain.chain.len(), 1);
    let block = &chain.chain[0];
    assert_eq!(block.index, 0);
    assert_eq!(block.timestamp, GENESIS_TIMESTAMP);
    assert_eq!(block.prev_hash, "0".repeat(64));
    assert_eq!(block.transactions.len(), 1);
    let g = &block.transactions[0];
    assert_eq!(g.sender_address, "SYSTEM");
    assert_eq!(g.ephemeral_receiver, "dev");
    assert_eq!(g.amount, MAX_SUPPLY_BITS);
    assert_eq!(g.ring_public_keys, ring(&["GENESIS_POINT"]));
    let mut h = blake3::Hasher::new();
    h.update(&0u64.to_be_bytes());
    h.update(&GENESIS_TIMESTAMP.to_be_bytes());
    h.update(&0u64.to_be_bytes());
    h.update("0".repeat(64).as_bytes());
    h.update(b"[]");
    assert_eq!(block.hash, h.finalize().to_hex().to_string());
    assert!(!chain.init_genesis("dev".to_string(), b"[]"));
    assert_eq!(chain.chain.len(), 1);
}

#[test]
fn mempool_admission_rules() {
    let mut chain = Blockchain::new();
    let emission = Transaction::new("SYSTEM".to_string(), "x".to_string(), 1, ring(&["k"]));
    assert!(chain.add_transaction_to_mempool(emission.duplicate()));
    assert!(chain.init_genesis("dev".to_string(), b"[]"));
    assert!(!chain.add_transaction_to_mempool(emission));
    let unsigned = Transaction::new("alice".to_string(), "y".to_string(), 1, ring(&["k"]));
    assert!(!chain.add_transaction_to_mempool(unsigned));
    let w = wallet(5, "alice");
    assert!(chain.add_transaction_to_mempool(signed_tx(&w, "z", 1.0)));
    assert_eq!(chain.mempool.len(), 2);
}

#[test]
fn mining_links_blocks_and_spends_receivers() {
    let mut chain = Blockchain::new();
    assert!(chain.init_genesis("dev".to_string(), b"[]"));
    let w = wallet(6, "alice");
    assert!(chain.add_transaction_to_mempool(signed_tx(&w, "eph-1", 1.0)));
    let mined = chain.mine_pending_transactions(b"[{\"tx\":1}]");
    assert_eq!(mined.len(), 1);
    assert_eq!(mined[0].ephemeral_receiver, "eph-1");
    assert!(chain.mempool.is_empty());
    assert_eq!(chain.chain.len(), 2);
    let block = &chain.chain[1];
    assert_eq!(block.index, 1);
    assert_eq!(block.timestamp, BLOCK_TIMESTAMP);
    assert_eq!(block.prev_hash, chain.chain[0].hash);
    assert!(block.hash.starts_with("000"));
    assert_eq!(Blockchain::calculate_block_hash(block, b"[{\"tx\":1}]"), block.hash);
    for n in 0..block.nonce {
        let mut b = block_with_nonce(block, n);
        b.hash = String::new();
        assert!(!Blockchain::calculate_block_hash(&b, b"[{\"tx\":1}]").starts_with("000"));
    }
    assert!(chain.is_spent("eph-1"));
    assert!(!chain.add_transaction_to_mempool(signed_tx(&w, "eph-1", 3.0)));
    assert!(chain.add_transaction_to_mempool(signed_tx(&w, "eph-2", 3.0)));
}

fn block_with_nonce(b: &zelle::Block, nonce: u64) -> zelle::Block {
    zelle::Block {
        index: b.index,
        timestamp: b.timestamp,
        transactions: Vec::new(),
        prev_hash: b.prev_hash.clone(),
        hash: b.hash.clone(),
        nonce,
    }
}

#[test]
fn mining_an_empty_mempool_does_nothing() {
    let mut chain = Blockchain::new();
    assert!(chain.init_genesis("dev".to_string(), b"[]"));
    assert!(chain.mine_pending_transactions(b"[]").is_empty());
    assert_eq!(chain.chain.len(), 1);
}

#[test]
fn try_mine_needs_a_block_to_build_on() {
    let mut chain = Blockchain::new();
    let w = wallet(8, "alice");
    assert!(chain.add_transaction_to_mempool(signed_tx(&w, "e", 1.0)));
    assert!(chain.try_mine_pending_transactions(b"[]").is_none());
    assert_eq!(chain.mempool.len(), 1);
    assert!(chain.init_genesis("dev".to_string(), b"[]"));
    let mined = chain.try_mine_pending_transactions(b"[]").unwrap();
    assert_eq!(mined.len(), 1);
    assert_eq!(chain.chain.len(), 2);
}

#[test]
fn zero_prefix_check() {
    assert!(has_zero_prefix("000abc", 3));
    assert!(!has_zero_prefix("00abc", 3));
    assert!(has_zero_prefix("abc", 0));
    assert!(!has_zero_prefix("00", 3));
}
