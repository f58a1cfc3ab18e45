[package]
name = "rooms_scheduler"
version = "0.1.0"
edition = "2021"
publish = false

[dependencies]
axum = "*"
axum_responses = "*"
jsonwebtoken = "*"
lazy_static = "*"
serde = { version = "*", features = ["derive"] }
tokio = { version = "*", features = ["macros", "rt-multi-thread", "net"] }
