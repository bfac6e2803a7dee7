[package]
name = "pi_tools"
version = "0.1.0"
edition = "2021"
publish = false

[dependencies]
anyhow = "*"
async-trait = "*"
base64 = "*"
chrono = "*"
clap = { version = "*", features = ["derive"] }
dirs = "*"
glob = "*"
serde = { version = "*", features = ["derive"] }
serde_json = "*"
sysinfo = "*"
tempfile = "*"
tokio = { version = "*", features = ["full"] }
unicode-normalization = "*"
uuid = { version = "*", features = ["v4"] }
