[package]
name = "zones"
version = "0.1.0"
edition = "2021"
publish = false

[dependencies]
bson = "=2.15.0"
flate2 = "=1.1.10"
log = "=0.4.34"
mongodb = { version = "=3.9.1", features = ["sync"] }
pretty_env_logger = "=0.5.0"
reqwest = { version = "=0.12.28", default-features = false, features = ["blocking", "rustls-tls"] }
scraper = "=0.12.0"
serde = { version = "=1.0.229", features = ["derive"] }
tokio = { version = "=1.54.1", features = ["rt-multi-thread", "macros", "time"] }
trust-dns-resolver = "=0.23.2"
