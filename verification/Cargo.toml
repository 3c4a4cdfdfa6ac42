[package]
name = "rag_search"
version = "0.1.0"
edition = "2021"
publish = false

[dependencies]
chrono = "=0.4.45"
env_logger = "=0.11.11"
futures-util = "=0.3.34"
instant-distance = "=0.6.1"
kreuzberg = { version = "*", default-features = false, features = ["tokio-runtime"] }
log = "=0.4.35"
notify = "=6.1.1"
rayon = "=1.12.0"
reqwest = { version = "=0.12.28", default-features = false, features = ["json", "stream"] }
rusqlite = { version = "=0.31.0", features = ["bundled"] }
serde = { version = "=1.0.229", features = ["derive"] }
serde_json = "=1.0.154"
sha2 = "=0.10.9"
tantivy = "=0.22.1"
thiserror = "=1.0.69"
tokio = { version = "=1.54.1", features = ["rt", "rt-multi-thread", "sync", "time", "macros"] }
uuid = { version = "=1.29.0", features = ["v4"] }
