[package]
name = "r1cs"
version = "0.1.0"
edition = "2021"
publish = false

[dependencies]
num = { version = "0.4", features = ["rand"] }
rand = "0.8"
rand_chacha = "0.3"
zkinterface = "1"
