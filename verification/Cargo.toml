[package]
name = "dir_service"
version = "0.1.0"
edition = "2021"
publish = false

[dependencies]
chrono = "0.4"
mimty = "*"
rust_search = "2"
serde = { version = "1", features = ["derive"] }
serde_json = "1"
