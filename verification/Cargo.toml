[package]
name = "rustdiff"
version = "0.1.0"
edition = "2021"
publish = false

[dependencies]
serde = { version = "1", features = ["derive"] }
serde_json = "1"
quick-xml = "0.37"
similar = "2"
rusqlite = { version = "0.32", features = ["bundled"] }
dirs = "5"
thiserror = "2"
rust-i18n = "3"
tracing = "0.1"
tracing-subscriber = { version = "0.3", features = ["env-filter"] }
gtk4 = { version = "0.9", features = ["v4_12"] }
libadwaita = { version = "0.7", features = ["v1_5"] }
sourceview5 = "0.9"

[dev-dependencies]
