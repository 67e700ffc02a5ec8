[package]
name = "diffuzzer"
version = "0.1.0"
edition = "2021"
publish = false

[dependencies]
rand = "=0.8.8"
serde = { version = "1", features = ["derive"] }
serde_json = "1"
anyhow = "1"
clap = { version = "4", features = ["derive"] }
toml = "0.8"
log = "0.4"
log4rs = "1"
regex = "1"
