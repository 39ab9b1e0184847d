[package]
name = "vissue"
version = "0.1.0"
edition = "2021"
publish = false

[dependencies]
anyhow = "1"
chrono = "0.4"
sha2 = "0.10"
xxhash-rust = { version = "0.8", features = ["xxh3"] }
nix = { version = "0.29", features = ["user"] }
toml = "0.8"
serde = { version = "1", features = ["derive"] }
serde_json = "1"
schemars = "0.8"
