[package]
name = "heliosdb_lite"
version = "0.1.0"
edition = "2021"
publish = false

[dependencies]
blake3 = { version = "1", features = ["pure"] }
crc32fast = "1"
flate2 = "1"
brotli = "3"
zstd = "0.13"
uuid = { version = "1", features = ["v4"] }
serde = { version = "1", features = ["derive"] }
serde_json = "1"
bincode = "1"
parking_lot = "0.12"
chrono = "0.4"
