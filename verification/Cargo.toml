[package]
name = "chain_node"
version = "0.1.0"
edition = "2021"
publish = false

[dependencies]
bincode = "1"
clap = "2"
config = "0.11"
hex = "0.4"
serde = { version = "1", features = ["derive"] }
sha3 = "0.10"
sodiumoxide = "0.2"
