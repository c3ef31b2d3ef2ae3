[package]
name = "rezzy"
version = "0.1.0"
edition = "2021"
publish = false

[dependencies]
anyhow = "1"
base64 = "0.22"
blake2 = "0.10"
clap = { version = "4", features = ["derive", "env"] }
roaring = "0.10"
serde = { version = "1", features = ["derive"] }
serde_json = "1"
sha2 = "0.10"
sha3 = "0.10"
ureq = "2"
xxhash-rust = { version = "0.8", features = ["xxh3"] }
