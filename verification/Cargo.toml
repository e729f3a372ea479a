[package]
name = "wallflower"
version = "0.3.7"
edition = "2021"
publish = false

[dependencies]
url = "=2.5.8"
urlencoding = "=2.1.3"
scraper = "=0.29.0"
serde = { version = "=1.0.229", features = ["derive"] }
serde_json = "=1.0.154"
toml = "=1.1.8"
reqwest = { version = "=0.12.28", default-features = false, features = ["rustls-tls"] }
rusqlite = { version = "=0.41.1", features = ["bundled"] }
chrono = { version = "=0.4.45", features = ["serde"] }
directories = "=6.0.0"
tokio = { version = "=1.54.1", features = ["sync", "rt-multi-thread", "macros", "time"] }
thiserror = "=2.0.21"
tracing = "=0.1.44"

[dev-dependencies]
regex = "1"
