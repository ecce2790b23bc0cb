[package]
name = "pishock_bridge"
version = "0.1.0"
edition = "2021"
publish = false

[dependencies]
anyhow = "1"
fastrand = "2"
serde_json = "1"
rosc = "0.10"
socket2 = "0.5"
if-addrs = "0.13"
mdns-sd = "*"
tokio = { version = "1", features = ["rt-multi-thread", "net", "time", "sync", "io-util"] }
reqwest = { version = "0.12", default-features = false, features = ["json", "rustls-tls"] }
eframe = { version = "*", default-features = false, features = ["glow", "x11", "default_fonts"] }
