[package]
name = "chiripa"
version = "1.0.0"
edition = "2021"
publish = false

[dependencies]
anyhow = "*"
axum = "*"
rand = "*"
reqwest = "*"
rusty-s3 = "*"
serde_json = "*"
tokio = { version = "*", features = ["macros", "net", "rt-multi-thread", "time"] }
tracing = "*"
tracing-subscriber = "*"
