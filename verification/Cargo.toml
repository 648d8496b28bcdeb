[package]
name = "graphico"
version = "0.1.0"
edition = "2021"
publish = false

[dependencies]
uuid = { version = "=1.29.0", features = ["v4", "serde"] }
rand = "=0.9.5"
serde = { version = "=1.0.229", features = ["derive"] }
serde_json = "=1.0.154"
rusqlite = { version = "=0.37.0", features = ["bundled"] }
dirs = "=6.0.0"
anyhow = "=1.0.104"
tracing = "=0.1.44"
tokio = { version = "=1.54.1", features = ["full"] }
axum = "=0.8.9"
rmcp = { version = "3", features = ["transport-io"] }
schemars = "1"
reqwest = { version = "0.13", default-features = false, features = ["json"] }
ureq = { version = "3", default-features = false, features = ["json"] }
tracing-subscriber = { version = "0.3", features = ["env-filter"] }
