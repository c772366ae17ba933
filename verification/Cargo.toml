[package]
name = "mini_search_engine"
version = "0.1.0"
edition = "2021"
publish = false

[dependencies]
anyhow = "=1.0.104"
bincode = "=1.3.3"
clap = { version = "=4.6.7", features = ["derive"] }
ego-tree = "=0.11.0"
env_logger = "=0.11.11"
log = "=0.4.34"
reqwest = { version = "=0.13.5", default-features = false }
scraper = "=0.27.0"
serde = { version = "=1.0.229", features = ["derive"] }
serde_json = "=1.0.151"
sled = "=0.34.7"
tokio = { version = "=1.53.2", features = ["rt-multi-thread", "macros", "time", "sync"] }
url = "=2.5.8"
uuid = { version = "=1.27.0", features = ["v4"] }
walkdir = "=2.5.0"
warp = { version = "=0.4.3", features = ["server"] }
