[package]
name = "netcode"
version = "0.1.0"
edition = "2021"
publish = false

[dependencies]
bincode = "1.3.3"
serde = { version = "1.0", features = ["derive"] }
tokio = { version = "1.28", features = ["rt-multi-thread", "macros", "net", "time", "sync"] }
macroquad = "0.4"
clap = { version = "4.2.1", features = ["derive"] }
log = "0.4"
env_logger = "0.10.0"
tokio-tungstenite = "*"
