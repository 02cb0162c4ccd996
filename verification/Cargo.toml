[package]
name = "brisby"
version = "0.1.0"
edition = "2021"
publish = false

[dependencies]
blake3 = "1"
getrandom = "0.2"
clap = { version = "4", features = ["derive"] }
dirs = "*"
serde = { version = "1", features = ["derive"] }
serde_json = "1"
toml = "*"
