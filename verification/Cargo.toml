[package]
name = "hashlock"
version = "0.1.0"
edition = "2021"
publish = false

[dependencies]
bitcoin = "0.27"
bech32 = "0.8"
hex = "0.4"
