[package]
name = "bsmt"
version = "0.1.0"
edition = "2021"
publish = false

[dependencies]
anyhow = "1"
mirai-annotations = "1"
once_cell = "1"
proptest = "1"
rayon = "1"
serde = { version = "1", features = ["derive"] }
thiserror = "1"
tiny-keccak = { version = "2", features = ["sha3"] }
