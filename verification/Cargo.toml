[package]
name = "rust_solv"
version = "0.1.0"
edition = "2021"
publish = false

[dependencies]
anyhow = "1"
configparser = "3"
flate2 = "1"
quick-xml = { version = "*", features = ["serialize"] }
reqwest = { version = "0.11", features = ["blocking"] }
serde = { version = "1", features = ["derive"] }
