[package]
name = "ms45-core"
version = "0.1.0"
edition = "2021"
publish = false

[dependencies]
md-5 = "=0.10.6"
sha2 = "=0.10.9"
num-bigint = "=0.4.8"
rand = "=0.8.8"
crc32fast = "=1.5.4"
anyhow = "=1.0.104"
thiserror = "=2.0.21"
serde_json = "=1.0.154"
tempfile = "=3.27.0"
clap = { version = "=4.6.7", features = ["derive"] }
axum = { version = "=0.7.9", features = ["multipart"] }
tokio = { version = "=1.54.1", features = ["macros", "rt-multi-thread", "net"] }
tower-http = { version = "=0.5.2", features = ["cors"] }
eframe = { version = "=0.37.0", default-features = false, features = ["glow", "x11", "default_fonts"] }
rfd = { version = "=0.17.2", default-features = false, features = ["xdg-portal"] }
