[package]
name = "thronglets"
version = "0.3.0"
edition = "2021"
publish = false

[dependencies]
bech32 = "0.11"
chrono = "0.4"
ed25519-dalek = { version = "2", features = ["rand_core"] }
rand = "0.8"
serde = { version = "1", features = ["derive"] }
serde_json = "1"
sha2 = "0.10"
toml = "0.8"
