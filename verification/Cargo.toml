[package]
name = "db_test"
version = "0.1.0"
edition = "2021"
publish = false

[dependencies]
alloy-primitives = { version = "*", features = ["k256"] }
k256 = "*"
rand = "0.8"
