[package]
name = "tickers"
version = "0.1.0"
edition = "2021"
publish = false

[dependencies]
actix-web = "4"
awc = { version = "3", features = ["rustls"] }
rustls = "0.20"
webpki-roots = "0.22"
serde_json = "1"
log = "0.4"
env_logger = "0.10"
