[package]
name = "web_radar"
version = "0.4.0"
edition = "2021"
publish = false

[dependencies]
memchr = "2"
ahash = "0.8"
rayon = "1"
anyhow = "1"
clap = { version = "4", features = ["derive"] }
serde = { version = "1", features = ["derive"] }
serde_json = "1"
toml = "0.8"
flate2 = "1"
memmap2 = "0.9"
chrono = "0.4"
fs2 = "0.4"
log = "0.4"
env_logger = "0.11"
indicatif = "0.17"
