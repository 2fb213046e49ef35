[package]
name = "sqlness"
version = "0.1.0"
edition = "2021"
publish = false

[dependencies]
prettydiff = { version = "0.6", default-features = false }
serde = { version = "1", features = ["derive"] }
tokio = { version = "1", features = ["fs", "io-util", "time"] }
toml = "0.5"
walkdir = "2"
