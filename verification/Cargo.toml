[package]
name = "packtrace"
version = "0.1.0"
edition = "2021"
publish = false

[dependencies]
anyhow = "1"
axum = "0.7"
crc32fast = "1"
flate2 = "1"
hex = "0.4"
miniz_oxide = "0.8"
rusqlite = "0.31"
serde = { version = "1", features = ["derive"] }
serde_json = "1"
sha1 = "0.10"
sha1_smol = "1"
sha2 = "0.10"
