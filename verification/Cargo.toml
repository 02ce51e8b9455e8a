[package]
name = "maze_core"
version = "0.1.0"
edition = "2021"
publish = false

[dependencies]
rand = "0.8"
sha2 = "0.10"
serde = { version = "1", features = ["derive"] }
thiserror = "1"
solana-sdk = "2"
