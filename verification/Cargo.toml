[package]
name = "nakamoto_client"
version = "0.1.0"
edition = "2021"
publish = false

[dependencies]
bitcoin_hashes = "*"
crossbeam-channel = "0.5"
fastrand = "1"
log = "0.4"
