[package]
name = "todayiwill"
version = "0.1.0"
edition = "2021"
publish = false

[dependencies]
chrono = "*"
clap = { version = "*", features = ["derive"] }
colored = "*"
curl = "*"
dirs = "*"
serde = { version = "*", features = ["derive"] }
serde_json = "*"
