[package]
name = "filele"
version = "0.1.0"
edition = "2021"
publish = false

[dependencies]
anyhow = "1"
clap = { version = "4", features = ["derive"] }
eframe = { version = "0.32", default-features = false, features = ["default_fonts", "glow", "x11"] }
hostname = "0.4"
indicatif = "0.17"
local-ip-address = "0.6"
lz4_flex = "0.11"
rand = "0.8"
rfd = { version = "0.15", default-features = false, features = ["xdg-portal", "tokio"] }
socket2 = "0.5"
tokio = { version = "1", features = ["full"] }
tracing-subscriber = { version = "0.3", features = ["env-filter"] }
walkdir = "2"
xxhash-rust = { version = "0.8", features = ["xxh3"] }
