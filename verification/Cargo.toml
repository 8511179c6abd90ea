[package]
name = "fxv_api"
version = "0.1.0"
edition = "2021"
publish = false

[dependencies]
argh = "*"
rand = "*"
serde = { version = "*", features = ["derive"] }
serde_json = "*"
thiserror = "*"
tokio = { version = "*", features = ["fs", "time", "rt"] }
walkdir = "*"
