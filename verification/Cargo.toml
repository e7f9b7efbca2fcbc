[package]
name = "backend_rs"
version = "0.1.0"
edition = "2021"
publish = false

[dependencies]
anyhow = "1"
axum = "0.7"
serde = { version = "1", features = ["derive"] }
socketioxide = { version = "0.12", features = ["state"] }
thiserror = "1"
tokio = { version = "1", features = ["macros", "net", "rt-multi-thread"] }
tower = "0.4"
tower-http = { version = "0.5", features = ["cors"] }
tracing = "0.1"
tracing-subscriber = "0.3"
