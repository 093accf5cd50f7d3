[package]
name = "nft_market"
version = "0.1.0"
edition = "2021"
publish = false

[dependencies]
near-sdk = { version = "4.1.1", default-features = false }
near-contract-standards = { version = "4.1.1", default-features = false }
