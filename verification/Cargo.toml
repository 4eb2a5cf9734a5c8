[package]
name = "cbc-core"
version = "0.1.0"
edition = "2021"
publish = false

[dependencies]
blake3 = "=1.8.7"
sha2 = "=0.10.9"
crc32c = "=0.6.9"
subtle = "=2.6.1"
aes-gcm = "=0.10.3"
zstd = "=0.13.4"
rand = "=0.8.8"
p256 = { version = "=0.13.2", features = ["ecdsa"] }
ed25519-dalek = { version = "=2.2.0", features = ["rand_core"] }
hex = "=0.4.3"
serde = { version = "=1.0.229", features = ["derive"] }
serde_json = "=1.0.154"
toml = "=0.8.23"
clap = { version = "=4.6.7", features = ["derive"] }
clap_complete = "=4.6.11"
tar = "=0.4.46"
notify = "=6.1.1"
owo-colors = { version = "=4.4.0", features = ["supports-colors"] }
indicatif = "=0.17.11"
human-panic = "=2.0.8"
