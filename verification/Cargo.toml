[package]
name = "mmorpg_lab"
version = "0.1.0"
edition = "2021"
publish = false

[dependencies]
anyhow = "1"
axum = { version = "0.7", default-features = false, features = ["http1", "json", "tokio"] }
bevy = { version = "0.13", default-features = false }
bytes = "1"
deadpool-redis = { version = "0.15", default-features = false, features = ["rt_tokio_1"] }
redis = { version = "0.25", default-features = false, features = ["tokio-comp"] }
reqwest = { version = "0.12", default-features = false, features = ["blocking", "json"] }
serde = { version = "1", features = ["derive"] }
serde_json = "1"
tokio = { version = "1", features = ["macros", "net", "rt-multi-thread", "sync", "time"] }
uuid = { version = "1", features = ["v4"] }
