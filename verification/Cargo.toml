[package]
name = "kovanica"
version = "0.1.0"
edition = "2021"
publish = false

[dependencies]
blake3 = { version = "1", features = ["pure"] }
ed25519-dalek = "2"
