[package]
name = "mancala_solver"
version = "0.1.0"
edition = "2021"
publish = false

[dependencies]
num-integer = "0.1"
serde = { version = "1", features = ["derive"] }
tokio = { version = "1", features = ["rt-multi-thread"] }
tokio-scoped = "*"
tracing = "0.1"
tracing-subscriber = "0.3"
