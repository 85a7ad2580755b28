[package]
name = "afdb"
version = "0.1.0"
edition = "2021"
publish = false

[dependencies]
ahash = "*"
anyhow = "*"
axum = "*"
parking_lot = "*"
rand = "0.8"
reqwest = { version = "*", default-features = false, features = ["blocking", "json"] }
roaring = "*"
serde = { version = "1", features = ["derive"] }
serde_json = "1"
thiserror = "*"
tower-http = { version = "*", features = ["cors"] }
uuid = { version = "*", features = ["v4"] }
