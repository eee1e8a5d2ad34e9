[package]
name = "service_book"
version = "0.1.0"
edition = "2021"
publish = false

[dependencies]
bytes = "=0.4.12"
rocket = { version = "0.5", features = ["json", "uuid"] }
serde = { version = "=1.0.229", features = ["derive"] }
tokio = { version = "=0.1.22", default-features = false, features = ["codec"] }
uuid = { version = "=0.8.2", features = ["v4"] }
