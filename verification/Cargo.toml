[package]
name = "tome"
version = "0.1.0"
edition = "2021"
publish = false

[dependencies]
sysinfo = "*"
tokio = { version = "*", features = ["full"] }
serde_json = "*"
anyhow = "*"
