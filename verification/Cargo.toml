[package]
name = "recoll_next"
version = "0.1.0"
edition = "2021"
publish = false

[dependencies]
tantivy = "0.22"
jieba-rs = "0.7"
notify = "6"
crossbeam-channel = "0.5"
serde = { version = "1", features = ["derive"] }
serde_json = "1"
anyhow = "1"

[dev-dependencies]
tempfile = "3"
