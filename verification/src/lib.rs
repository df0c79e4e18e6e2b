//! A small ring-signature ledger: transactions, a proof-of-work chain with a
//! mempool, a Bloom filter of received one-time addresses, wallets and
//! off-chain payment channels.
pub mod encoding;
pub mod crypto;
pub mod transaction;
pub mod blockchain;
pub mod bloom;
pub mod wallet;
pub mod channel;
pub mod message;

pub use blockchain::{Block, Blockchain, MAX_SUPPLY_BITS};
pub use bloom::BloomFilter;
pub use channel::StateChannel;
pub use transaction::{RingSignature, Transaction};
pub use wallet::{EncryptedWalletFile, Wallet, WalletError};
