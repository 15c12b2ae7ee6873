[package]
name = "furss"
version = "0.1.0"
edition = "2021"
publish = false

[dependencies]
axum = "0.7"
dotenvy = "0.15"
futures = "0.3"
quick-xml = "0.31"
reqwest = { version = "0.12", features = ["json"] }
serde = { version = "1", features = ["derive"] }
tl = "0.7"
tokio = { version = "1", features = ["full"] }
tracing = "0.1"
tracing-subscriber = { version = "0.3", features = ["env-filter"] }
