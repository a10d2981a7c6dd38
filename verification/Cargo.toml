[package]
name = "rhizolog"
version = "0.1.0"
edition = "2021"
publish = false

[dependencies]
chrono = { version = "0.4", default-features = false, features = ["std", "clock"] }
serde = { version = "1", features = ["derive"] }
serde_yaml_ng = "*"
rusqlite = { version = "*", features = ["bundled"] }
thiserror = "*"
walkdir = "2"
tokio = { version = "1", features = ["rt-multi-thread", "macros", "fs", "sync"] }
