[package]
name = "keyed_loader"
version = "0.1.0"
edition = "2021"
publish = false

[dependencies]
uuid = { version = "=1.27.0", features = ["serde"] }
chrono = { version = "=0.4.45", features = ["serde"] }
serde = { version = "=1.0.229", features = ["derive"] }
tokio-postgres = { version = "=0.7.18", features = ["with-uuid-1", "with-chrono-0_4"] }
deadpool-postgres = "=0.14.2"
tokio-pg-mapper = { version = "=0.2.0", features = ["derive"] }
tokio-pg-mapper-derive = "=0.2.0"
