[package]
name = "zelle"
version = "0.1.0"
edition = "2021"
publish = false

[dependencies]
blake3 = "1.8"
hex = "0.4.3"
ed25519-dalek = "2.2"
rand = "0.8.5"
chacha20poly1305 = "0.10.1"
serde = { version = "1", features = ["derive"] }
serde_json = "1"
tokio = { version = "1", features = ["macros", "rt-multi-thread", "io-util", "io-std", "sync", "time"] }
libp2p = { version = "0.57", default-features = false, features = ["gossipsub", "macros", "tokio"] }
