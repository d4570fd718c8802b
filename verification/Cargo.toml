[package]
name = "swarm_core"
version = "0.1.0"
edition = "2021"
publish = false

[dependencies]
chrono = "*"
uuid = { version = "*", features = ["v4"] }
clap = { version = "*", features = ["derive"] }
tokio = { version = "*", features = ["rt", "macros", "signal", "sync", "time"] }

[dev-dependencies]
serde_json = "*"
