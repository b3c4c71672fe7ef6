[package]
name = "terminal_forecast_harness"
version = "0.1.0"
edition = "2021"
publish = false

[dependencies]
ergodic-transport = "*"
serde = { version = "1", features = ["derive"] }
serde_json = "1"
