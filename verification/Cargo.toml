[package]
name = "asciiart"
version = "0.1.0"
edition = "2021"
publish = false

[dependencies]
crossterm = { version = "*", default-features = false }
anyhow = "*"
serde = { version = "*", features = ["derive"] }
serde_with = "*"
serde_yaml = "*"
toml = "*"
rustc-hash = "*"
