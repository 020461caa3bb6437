[package]
name = "livescore"
version = "0.1.0"
edition = "2021"
publish = false

[dependencies]
bitap = "*"
chrono = "*"
fuzzy-matcher = "*"
reqwest = { version = "*", default-features = false, features = ["blocking"] }
scraper = "*"
serde = { version = "*", features = ["derive"] }
serde_json = "*"
