[package]
name = "awesome_ledger"
version = "0.1.0"
edition = "2021"
publish = false

[dependencies]
anyhow = "1"
askama = "*"
chrono = "0.4"
pulldown-cmark = "*"
reqwest = { version = "*", default-features = false, features = ["blocking", "rustls-tls"] }
serde = { version = "1", features = ["derive"] }
serde_json = "1"
toml = "*"
url = "2"
