[package]
name = "piscina"
version = "0.1.0"
edition = "2021"
publish = false

[dependencies]
futures-channel = "0.3"
futures-util = "0.3"

[dev-dependencies]
futures = "0.3"
