[package]
name = "virtual_pool"
version = "0.1.0"
edition = "2021"
publish = false

[dependencies]
sfml = { version = "*", default-features = false, features = ["graphics"] }
