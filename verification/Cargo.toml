[package]
name = "bun_binary_extractor"
version = "0.1.0"
edition = "2021"
publish = false

[dependencies]
clap = { version = "4", features = ["derive"] }
regex = "1"
serde_json = "1"
thiserror = "2"
zstd = "0.13"
