[package]
name = "game"
version = "0.1.0"
edition = "2021"
publish = false

[dependencies]
itertools = "*"
rand = { version = "0.8", features = ["small_rng"] }
proconio = "*"
