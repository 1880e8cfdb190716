[package]
name = "subcode"
version = "0.1.0"
edition = "2021"
publish = false

[dependencies]
anyhow = "1"
crossterm = "0.28"
ratatui = { version = "0.29", features = ["unstable-rendered-line-info"] }
rayon = "1"
serde_json = "1"
similar = { version = "*", features = ["unicode"] }
zstd = "0.13"
