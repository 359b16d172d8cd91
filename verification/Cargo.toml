[package]
name = "mpt_proof"
version = "0.1.0"
edition = "2021"
publish = false

[dependencies]
anchor-lang = "0.31"
rlp = "=0.5.2"
ethereum-types = "*"
num-bigint = "0.4"
serde = { version = "1", features = ["derive"] }
serde_json = "1"
eyre = "0.6"
dotenv = "0.15"
solana-sdk = "2"
