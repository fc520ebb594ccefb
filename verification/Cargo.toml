[package]
name = "calibre_ingest"
version = "0.1.0"
edition = "2021"

[dependencies]
axum = { version = "*", features = ["multipart"] }
serde_json = "*"
tokio = { version = "*", features = ["full"] }
tower-http = { version = "*", features = ["cors"] }
tracing = "*"
tracing-subscriber = "*"
