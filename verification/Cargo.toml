[package]
name = "invisible_backend"
version = "0.1.0"
edition = "2021"
publish = false

[dependencies]
bincode = "1.3"
num-bigint = "0.4"
num-traits = "0.2"
parking_lot = "0.12"
rayon = "1"
serde_json = "1"
starknet-crypto = "0.6"
tokio = { version = "1", features = ["macros", "rt-multi-thread"] }
