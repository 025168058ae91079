[package]
name = "ubuntu-desktop-help"
version = "0.1.0"
edition = "2021"
publish = false

[dependencies]
anyhow = "=1.0.104"
async-channel = "=2.5.0"
clap = { version = "=4.6.7", features = ["derive", "env"] }
fastembed = { version = "=5.17.4", default-features = false, features = ["hf-hub-rustls-tls", "ort-load-dynamic"] }
futures-util = "=0.3.34"
gtk4 = "=0.11.5"
libadwaita = "=0.9.2"
pulldown-cmark = "=0.13.6"
qdrant-client = { version = "=1.20.0", default-features = false }
reqwest = { version = "=0.13.5", default-features = false, features = ["json", "stream", "rustls", "http2"] }
serde = { version = "=1.0.229", features = ["derive"] }
serde_json = "=1.0.154"
text-splitter = { version = "=0.33.1", features = ["markdown"] }
tokio = { version = "=1.54.1", features = ["full"] }
zbus = { version = "=5.19.0", default-features = false, features = ["tokio"] }
