[package]
name = "mergepen"
version = "0.1.0"
edition = "2021"
publish = false

[dependencies]
anyhow = "=1.0.104"
automerge = "=0.12.0"
axum = { version = "=0.8.9", features = ["ws"] }
clap = { version = "=4.6.7", features = ["derive"] }
futures = "*"
samod = { version = "=0.15.0", features = ["axum", "tokio", "tungstenite"] }
samod-core = "=0.15.0"
serde = { version = "*", features = ["derive"] }
serde-automerge = "*"
tokio = { version = "*", features = ["full"] }
tokio-tungstenite = "*"
toml = "*"
