[package]
name = "guess_engine"
version = "0.1.0"
edition = "2021"

[dependencies]
colored = "2"
dialoguer = { version = "0.10", default-features = false }
