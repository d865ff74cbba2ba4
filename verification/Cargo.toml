[package]
name = "chat_gateway"
version = "0.1.0"
edition = "2021"
publish = false

[dependencies]
jsonwebtoken = { version = "=11.1.0", features = ["rust_crypto"] }
serde_json = "=1.0.151"
uuid = { version = "=1.27.0", features = ["v4", "serde"] }
chrono = "=0.4.45"
serde = { version = "=1.0.229", features = ["derive"] }
dotenv = "=0.15.0"
socketioxide = { version = "=0.18.7", features = ["state"] }
axum = "=0.8.9"
tokio = { version = "=1.53.2", features = ["rt-multi-thread", "macros"] }
