[package]
name = "lib_oxide_db"
version = "0.1.0"
edition = "2021"
publish = false

[dependencies]
bincode = "1"
byteorder = "1"
crc = "1"
serde = { version = "1", features = ["derive"] }
