[package]
name = "taostorage"
version = "0.3.0"
edition = "2021"
publish = false

[dependencies]
sha2 = "0.10"
hex = "0.4"
bs58 = "0.5"
reed-solomon-erasure = "6"
rand = "0.8"
chrono = { version = "0.4", default-features = false, features = ["now", "std"] }
chacha20poly1305 = "0.10"
ed25519-dalek = { version = "2", features = ["rand_core"] }
x25519-dalek = "2"
serde = { version = "1", features = ["derive"] }
serde_json = "1"
bincode = "1"
sled = "0.34"
anyhow = "1"
thiserror = "1"
clap = { version = "4", default-features = false, features = ["std", "derive", "help", "usage", "error-context"] }
tokio = { version = "1", features = ["full"] }
axum = "0.8"
tower-http = { version = "0.6", features = ["cors"] }
tracing = "0.1"
tracing-subscriber = { version = "0.3", default-features = false, features = ["fmt", "std"] }
libc = "0.2"
wasmi = "0.31"
libp2p = { version = "0.54", features = ["kad", "gossipsub", "mdns", "tokio", "identify", "request-response", "cbor", "noise", "tcp", "yamux", "macros"] }
