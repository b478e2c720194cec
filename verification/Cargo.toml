[package]
name = "media_archiver"
version = "0.1.0"
edition = "2021"
publish = false

[dependencies]
chrono = "0.4"
lru = "0.6"
config = { version = "0.10", default-features = false, features = ["toml"] }
futures = "0.3"
reqwest = "0.10"
serde = { version = "1", features = ["derive"] }
telegram-bot = "0.7"
tokio = { version = "0.2", features = ["full"] }
