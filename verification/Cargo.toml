[package]
name = "localcomm"
version = "0.1.0"
edition = "2021"
publish = false

[dependencies]
uuid = { version = "*", features = ["v4"] }
chrono = "*"
sha2 = "*"
tokio = { version = "*", features = ["full"] }
clap = { version = "*", features = ["derive"] }
mdns-sd = "*"
hostname = "*"
anyhow = "*"
