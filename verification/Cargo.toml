[package]
name = "epub_reader_core"
version = "0.1.0"
edition = "2021"
publish = false

[dependencies]
quick-xml = "=0.36.2"
zip = { version = "=2.6.1", default-features = false, features = ["deflate"] }
scraper = { version = "=0.20.0", features = ["deterministic"] }
serde = { version = "=1.0.229", features = ["derive"] }
serde_json = "=1.0.154"
clap = { version = "=4.6.7", features = ["derive"] }
mime_guess = "=2.0.5"
axum = "=0.8.9"
tokio = { version = "=1.54.1", features = ["macros", "rt-multi-thread", "net"] }
tower-http = { version = "=0.6.11", features = ["cors"] }
thiserror = "=2.0.21"
