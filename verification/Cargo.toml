[package]
name = "vl1_core"
version = "0.1.0"
edition = "2021"
publish = false

[dependencies]
openssl = "0.10"
parking_lot = "0.12"
