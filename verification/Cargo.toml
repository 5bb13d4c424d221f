[package]
name = "libakvdb"
version = "0.1.0"
edition = "2021"
publish = false

[dependencies]
aes-gcm = "0.10"
base-62 = "0.1"
bincode = "1"
blake3 = "1"
byteorder = "1"
clap = { version = "4", features = ["derive"] }
generic-array = "0.14"
rand = "0.8"
serde = { version = "1", features = ["derive"] }
