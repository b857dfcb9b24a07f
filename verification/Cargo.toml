[package]
name = "doc_storage"
version = "0.1.0"
edition = "2021"
publish = false

[dependencies]
chrono = "0.4"
sqlx = { version = "0.8", default-features = false, features = ["runtime-tokio", "sqlite", "migrate", "chrono"] }
