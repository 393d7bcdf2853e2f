[package]
name = "hoatzin"
version = "0.1.0"
edition = "2021"
publish = false

[dependencies]
uuid = { version = "1", features = ["v4"] }
serde = { version = "1", features = ["derive"] }
serde_json = "1"
tokio = { version = "1", features = ["full"] }
toml = "*"
clap = { version = "4", features = ["derive"] }
walkdir = "2"
pyo3 = "*"
