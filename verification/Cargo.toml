[package]
name = "pong"
version = "0.1.0"
edition = "2021"
publish = false

[dependencies]
bytes = "1.10"
glam = "*"
log = "*"
env_logger = "*"
futures = "*"
tokio = { version = "1", features = ["rt-multi-thread", "macros", "io-util", "sync", "time", "signal"] }
tokio-util = "*"
quinn = "0.11"
rcgen = "0.14"
egui = "*"
eframe = { version = "*", default-features = false, features = ["glow", "default_fonts", "x11"] }
