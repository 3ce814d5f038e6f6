[package]
name = "sinorag"
version = "0.1.0"
edition = "2021"
publish = false

[dependencies]
anyhow = "=1.0.104"
serde = { version = "=1.0.229", features = ["derive"] }
serde_json = "=1.0.154"
toml = "=0.8.23"
walkdir = "=2.5.0"
pulldown-cmark = { version = "=0.12.2", default-features = false }
arrow = { version = "=53.4.1", default-features = false }
parquet = { version = "=53.4.1", default-features = false, features = ["arrow"] }
quick-xml = "=0.36.2"
unicode-script = "=0.5.9"
flate2 = "=1.1.10"
regex = "1"
sha2 = "0.10"
base64 = "0.22"
hex = "0.4"
bincode = "1"
