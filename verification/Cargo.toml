[package]
name = "imt"
version = "0.1.0"
edition = "2021"
publish = false

[dependencies]
tiny-keccak = { version = "*", features = ["keccak"] }
sha2 = "*"
serde = { version = "*", features = ["derive"] }
