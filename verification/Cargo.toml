[package]
name = "kawio"
version = "0.1.0"
edition = "2021"
publish = false

[dependencies]
rand = "0.8"
axum = { version = "0.7", features = ["ws"] }
clap = { version = "4", features = ["derive"] }
jsonwebtoken = "9"
rusqlite = { version = "0.31", features = ["bundled"] }
serde = { version = "1", features = ["derive"] }
serde_json = "1"
tokio = { version = "1", features = ["rt-multi-thread", "macros", "net"] }
tower-http = { version = "0.5", features = ["fs"] }
tracing = "0.1"
tracing-subscriber = "0.3"
