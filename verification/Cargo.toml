[package]
name = "kb_engine"
version = "0.1.0"
edition = "2021"
publish = false

[dependencies]
zip = { version = "*", default-features = false, features = ["deflate"] }
pdf-extract = "*"
fastembed = "*"
serde = { version = "*", features = ["derive"] }
serde_json = "*"
uuid = { version = "*", features = ["v4"] }
chrono = { version = "*", default-features = false, features = ["clock"] }
