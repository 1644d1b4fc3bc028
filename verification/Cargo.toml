[package]
name = "tar_ingest"
version = "0.1.0"
edition = "2021"
publish = false

[dependencies]
flate2 = "*"
axum = { version = "*", features = ["multipart"] }
tokio = { version = "*", features = ["rt-multi-thread", "net", "macros"] }
tower-http = { version = "*", features = ["fs"] }

[dev-dependencies]
tar = "*"
