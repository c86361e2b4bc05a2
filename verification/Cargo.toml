[package]
name = "hashcards-web"
version = "0.1.0"
edition = "2021"
publish = false

[dependencies]
axum = "=0.8.9"
axum-extra = { version = "=0.12.6", features = ["cookie-signed", "cookie-key-expansion"] }
blake3 = "=1.8.7"
chrono = "=0.4.45"
clap = { version = "=4.6.7", features = ["derive"] }
log = "=0.4.35"
maud = { version = "=0.27.0", features = ["axum"] }
open = "=5.4.5"
openidconnect = { version = "=4.1.0", default-features = false, features = ["reqwest", "rustls-tls"] }
parking_lot = "=0.12.5"
percent-encoding = "=2.3.2"
pulldown-cmark = { version = "=0.13.6", default-features = false, features = ["html"] }
reqwest = { version = "=0.12.28", default-features = false, features = ["rustls-tls"] }
rusqlite = { version = "=0.41.1", features = ["bundled"] }
serde = { version = "=1.0.229", features = ["derive"] }
serde_json = "=1.0.154"
tempfile = "=3.27.0"
time = "=0.3.55"
tokio = { version = "=1.54.1", features = ["full"] }
toml = "=1.1.8"
walkdir = "=2.5.0"
