[package]
name = "tong"
version = "0.1.0"
edition = "2021"

[dependencies]
semver = "1"
serde = { version = "1", features = ["derive"] }
toml = "0.8"
flate2 = "1"
lzma-rs = "0.3"
tar = "0.4"
