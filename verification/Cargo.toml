[package]
name = "diamond_types"
version = "0.1.0"
edition = "2021"
publish = false

[dependencies]
smallvec = "*"
smartstring = "*"
crc = "*"
rand = "*"
bumpalo = { version = "*", features = ["collections"] }
serde = { version = "*", features = ["derive"] }
