[package]
name = "stegshare"
version = "0.1.0"
edition = "2021"
publish = false

[dependencies]
async-std = "1"
base64 = "0.21"
chrono = "0.4"
image = "0.24"
open = "5"
serde = { version = "1", features = ["derive"] }
serde_json = "1"
steganography = "1"
sysinfo = "0.29"
tokio = { version = "1", features = ["full"] }
