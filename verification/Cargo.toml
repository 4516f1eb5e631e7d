[package]
name = "trade-city"
version = "0.1.0"
edition = "2021"
publish = false

[dependencies]
chrono = { version = "0.4", default-features = false, features = ["clock"] }
rust_decimal = { version = "1", default-features = false, features = ["std"] }
