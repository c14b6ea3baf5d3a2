[package]
name = "marrow"
version = "0.1.0"
edition = "2021"
publish = false

[dependencies]
x25519-dalek = { version = "=2.0.1", features = ["static_secrets"] }
ed25519-dalek = "=2.2.0"
ml-kem = { version = "=0.2.3", features = ["deterministic"] }
hkdf = "=0.12.4"
sha2 = "=0.10.9"
chacha20poly1305 = "=0.10.1"
argon2 = "=0.5.3"
bip39 = "=2.2.2"
hex = "=0.4.3"
rand = "=0.8.8"
rand_core = { version = "=0.6.4", features = ["getrandom"] }
serde = { version = "=1.0.229", features = ["derive"] }
bincode = "=1.3.3"
thiserror = "=1.0.69"
redb = "=2.6.4"
tantivy = "=0.22.1"
tokio = { version = "=1.54.1", features = ["rt-multi-thread", "macros", "net", "sync", "time", "io-util"] }
tokio-util = { version = "=0.7.20", features = ["codec"] }
futures = "=0.3.34"
bytes = "=1.12.1"
dashmap = "=6.2.1"
anyhow = "=1.0.104"
tracing = "=0.1.44"
tracing-subscriber = "=0.3.23"
quinn = { version = "=0.11.12", default-features = false, features = ["runtime-tokio", "rustls-ring"] }
rustls = { version = "=0.23.46", default-features = false, features = ["ring", "std"] }
rustls-pki-types = "=1.15.1"
rcgen = "=0.13.2"
zeroize = "=1.9.1"
