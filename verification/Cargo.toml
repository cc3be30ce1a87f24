[package]
name = "kvstack"
version = "0.1.0"
edition = "2021"
publish = false

[dependencies]
cosmwasm-std = { version = "1", features = ["iterator"] }
serde = { version = "1", features = ["derive"] }
schemars = "0.8"
