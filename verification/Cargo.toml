[package]
name = "turnstone"
version = "0.1.0"
edition = "2021"
publish = false

[dependencies]
sha2 = "0.10"
cosmwasm-crypto = "1"
cosmwasm-std = "1"
cw2 = "1"
cw-storage-plus = "1"
serde = { version = "1", features = ["derive"] }
serde_json = "1"
schemars = "0.8"

[dev-dependencies]
secp256k1 = { version = "0.27", features = ["rand-std"] }
k256 = { version = "0.13", features = ["ecdsa"] }
