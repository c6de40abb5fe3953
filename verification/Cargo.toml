[package]
name = "rustvault"
version = "0.1.0"
edition = "2021"
publish = false

[dependencies]
axum = "*"
futures = "*"
mongodb = "*"
serde = { version = "*", features = ["derive"] }
tokio = { version = "*", features = ["full"] }
tower-http = { version = "*", features = ["cors"] }
