[package]
name = "stowaway"
version = "0.1.0"
edition = "2021"
publish = false

[dependencies]
anyhow = "1"
clap = { version = "4", features = ["derive"] }
hex = "0.4"
serde = { version = "1", features = ["derive"] }
sha2 = "0.10"
similar = "2"
toml = "0.8"
