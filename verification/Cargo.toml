[package]
name = "rust_dust"
version = "0.1.0"
edition = "2021"
publish = false

[dependencies]
regex = "1"
either = "1"
serde = { version = "1", features = ["derive"] }
axum = "0.7"
tokio = { version = "1", features = ["full"] }
tokio-postgres = "0.7"
config = "0.14"
futures = "0.3"
