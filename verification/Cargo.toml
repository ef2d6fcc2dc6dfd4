[package]
name = "velas-address-rust"
version = "0.1.0"
edition = "2021"
publish = false

[dependencies]
basex-rs = "=0.1.1"
bitcoin_hashes = "=1.2.0"
hex = "=0.4.3"
