[package]
name = "ml_kem"
version = "0.1.0"
edition = "2021"
publish = false

[dependencies]
sha3 = "0.10"
getrandom = "0.2"
zeroize = "1"
hex = "0.4"
