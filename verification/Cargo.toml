[package]
name = "saveowl"
version = "0.1.1"
edition = "2021"
publish = false

[dependencies]
anyhow = "1"
blake3 = "1"
chrono = { version = "0.4", features = ["serde"] }
dirs = "5"
parking_lot = "0.12"
serde = { version = "1", features = ["derive"] }
serde_json = "1"
sysinfo = "*"
tao = "*"
toml = "0.8"
tray-icon = "*"
uuid = { version = "1", features = ["v4", "serde"] }
