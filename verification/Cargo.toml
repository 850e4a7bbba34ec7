[package]
name = "aichat"
version = "0.1.0"
edition = "2021"
publish = false

[dependencies]
anyhow = "1"
async-trait = "0.1"
crossbeam = "0.8"
eventsource-stream = "0.2"
futures-util = "0.3"
hnsw_rs = "0.3"
indexmap = "2"
inquire = "0.7"
path-absolutize = "3"
reqwest = { version = "0.12", default-features = false, features = ["json", "stream"] }
serde = { version = "1", features = ["derive"] }
serde_json = { version = "1", features = ["preserve_order"] }
serde_yaml = "0.9"
syntect = { version = "5", default-features = false, features = ["default-fancy"] }
tokio = { version = "1", features = ["rt", "rt-multi-thread", "macros", "sync", "time"] }
unicode-segmentation = "1"

[dev-dependencies]
bincode = "1"
