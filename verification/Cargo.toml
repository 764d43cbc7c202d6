[package]
name = "tradyman"
version = "0.1.0"
edition = "2021"
publish = false

[dependencies]
anyhow = "1"
serde = { version = "1", features = ["derive"] }
serde_json = "1"
termion = "*"
tungstenite = { version = "*", features = ["native-tls"] }
