[package]
name = "emry"
version = "0.1.0"
edition = "2021"
publish = false

[dependencies]
arrow-array = "*"
arrow-schema = "*"
axum = { version = "0.8", features = ["ws"] }
axum-server = { version = "0.8", features = ["tls-rustls"] }
clap = { version = "4", features = ["derive"] }
crossbeam-channel = "0.5"
form_urlencoded = "1"
parquet = { version = "*", default-features = false, features = ["arrow"] }
pyo3 = { version = "*", features = ["abi3-py310", "extension-module"] }
ratatui = "0.30"
rmp-serde = "1"
rtrb = "0.3"
serde = { version = "1", features = ["derive"] }
serde_json = "1"
thiserror = "2"
tokio = { version = "1", features = ["rt-multi-thread", "net", "time", "macros"] }
uuid = { version = "1", features = ["v4", "serde"] }
