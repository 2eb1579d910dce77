[package]
name = "kanji_card"
version = "0.1.0"
edition = "2021"
publish = false

[dependencies]
kakasi = "*"
chrono = "*"
sha2 = "*"
base64 = "*"
serde = { version = "*", features = ["derive"] }
serde_json = "*"
anyhow = "*"
jsonwebtoken = "*"
