[package]
name = "pure_dsa"
version = "0.1.0"
edition = "2021"
publish = false

[dependencies]
rand = "0.8"
zeroize = { version = "1", features = ["derive"] }
