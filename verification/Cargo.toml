[package]
name = "lpm"
version = "0.1.0"
edition = "2021"
publish = false

[dependencies]
anyhow = "=1.0.104"
bzip2 = "=0.6.1"
chrono = { version = "=0.4.45", features = ["serde"] }
flate2 = "=1.1.10"
futures-util = "=0.3.34"
indicatif = "=0.17.11"
lexopt = "=0.3.2"
libc = "=0.2.191"
owo-colors = "=4.4.0"
reqwest = { version = "=0.12.28", default-features = false, features = ["rustls-tls", "gzip", "deflate", "stream"] }
rusqlite = { version = "=0.41.1", features = ["bundled"] }
serde = { version = "=1.0.229", features = ["derive"] }
serde_json = "=1.0.154"
tar = "=0.4.46"
tempfile = "=3.27.0"
terminal_size = "=0.4.4"
tokio = { version = "=1.54.1", features = ["full"] }
toml = "=0.8.23"
varisat = "0.2"
xz2 = "=0.1.7"
zstd = "=0.14.3"
