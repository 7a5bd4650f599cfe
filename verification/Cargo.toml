[package]
name = "assembly"
version = "0.1.0"
edition = "2021"
publish = false

[dependencies]
winter-crypto = { version = "=0.13.1", default-features = false }

[dev-dependencies]
winter-math = { version = "=0.13.1", default-features = false }
