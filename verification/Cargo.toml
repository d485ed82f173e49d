[package]
name = "tnt"
version = "0.1.0"
edition = "2021"
publish = false

[dependencies]
anyhow = "*"
clap = { version = "*", features = ["derive"] }
env_logger = "*"
file_lookup = "*"
fuzzy-matcher = "*"
home = "*"
inquire = "*"
log = "*"
serde = { version = "*", features = ["derive"] }
serde_json = "*"
