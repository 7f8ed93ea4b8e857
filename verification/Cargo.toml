[package]
name = "rpaillier"
version = "0.1.0"
edition = "2021"
publish = false

[dependencies]
num = { version = "=0.4.3", features = ["rand"] }
rand = "=0.8.8"
