[package]
name = "boxkv"
version = "0.1.0"
edition = "2021"
publish = false

[dependencies]
bytes = "*"
config = "*"
crc32fast = "*"
parking_lot = "*"
serde = { version = "*", features = ["derive"] }
thiserror = "*"
tracing = "*"
