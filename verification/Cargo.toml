[package]
name = "memory_module"
version = "0.1.0"
edition = "2021"
publish = false

[dependencies]
chrono = "*"
uuid = { version = "*", features = ["v4"] }
dashmap = "*"
serde = { version = "*", features = ["derive"] }
serde_json = "*"
sqlx = { version = "*", features = ["sqlite", "runtime-tokio"] }
tokio = { version = "*", features = ["rt-multi-thread"] }
