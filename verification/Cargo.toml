[package]
name = "sparse_merkle"
version = "0.1.0"
edition = "2021"
publish = false

[dependencies]
risc0-zkvm = { version = "*", default-features = false }
serde = { version = "1", features = ["derive"] }
