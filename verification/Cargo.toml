[package]
name = "mcat_core"
version = "0.1.0"
edition = "2021"
publish = false

[dependencies]
base64 = "0.22"
ego-tree = "0.10"
futures = "0.3"
regex = "1"
reqwest = { version = "0.12", default-features = false }
scraper = "0.23"
serde_json = "1"
tokio = { version = "1", features = ["rt-multi-thread", "macros", "net", "time", "signal"] }
tokio-tungstenite = "0.27"
