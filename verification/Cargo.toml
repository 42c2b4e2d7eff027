[package]
name = "lyrion"
version = "0.2.4"
edition = "2021"
publish = false

[dependencies]
num-bigint = "0.4"
sha2 = "0.10"
ripemd = "0.1"
bincode = "1.3"
secp256k1 = "0.27"
curve25519-dalek = "4"
bulletproofs = "*"
base58check = "0.1"
hex = "0.4"
base64 = "0.21"
lru = "0.12"
dashmap = "5"
ed25519-dalek = "1"
randomx-rs = "*"
argon2 = "0.5"
chacha20poly1305 = "0.10"
bitcoin = "0.30"
bip39 = { version = "2", features = ["rand"] }
tokio = { version = "1", features = ["full"] }
rocksdb = { version = "*", default-features = false }
clap = { version = "4", features = ["derive"] }
tracing = "0.1"
tracing-subscriber = { version = "0.3", features = ["env-filter"] }
actix-web = { version = "4", default-features = false, features = ["macros"] }
jsonwebtoken = "9"
reqwest = { version = "0.11", default-features = false, features = ["json"] }
rand = "0.8"
anyhow = "1"
serde = { version = "1", features = ["derive"] }
serde_json = "1"
