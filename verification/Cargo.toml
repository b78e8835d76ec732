[package]
name = "digital-euro-wallet"
version = "0.1.0"
edition = "2021"
publish = false

[dependencies]
num-bigint = { version = "0.4", features = ["rand"] }
num-integer = "0.1"
num-traits = "0.2"
rand = "0.8"
sha2 = "0.10"
