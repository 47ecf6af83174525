[package]
name = "feedcore"
version = "0.1.0"
edition = "2021"
publish = false

[dependencies]
anyhow = "*"
chrono = "*"
futures = "*"
reqwest = { version = "*", default-features = false, features = ["rustls-tls"] }
rss = "*"
rusqlite = { version = "*", features = ["bundled"] }
serde = { version = "*", features = ["derive"] }
tokio = { version = "*", features = ["rt-multi-thread", "sync", "time", "macros"] }
