[package]
name = "stock_average"
version = "0.1.0"
edition = "2021"
publish = false

[dependencies]
reqwest = { version = "0.12", features = ["blocking"] }
rocket = "0.5"
rust_decimal = "1"
serde_json = "1"
