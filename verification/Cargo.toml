[package]
name = "hybrid-shared-core"
version = "0.1.0"
edition = "2021"
publish = false

[dependencies]
anyhow = "1"
axum = { version = "0.7", default-features = false, features = ["http1", "json", "tokio"] }
bytemuck = "1"
bzip2 = "0.5"
chrono = { version = "0.4", default-features = false, features = ["std", "clock"] }
clap = { version = "4.5", default-features = false, features = ["std", "derive", "help", "usage", "error-context"] }
hnsw_rs = "0.3"
ndarray = "0.16"
open = "5.3"
ort = { version = "=2.0.0-rc.10", default-features = false, features = ["std", "ndarray", "load-dynamic"] }
quick-xml = "0.38"
regex = "=1.13.1"
rusqlite = { version = "0.37", features = ["bundled"] }
serde = { version = "1", features = ["derive"] }
serde_json = { version = "=1.0.154", features = ["float_roundtrip"] }
sha2 = "=0.10.9"
tantivy = { version = "0.25", default-features = false, features = ["mmap"] }
thiserror = "2"
tokenizers = { version = "0.22", default-features = false, features = ["fancy-regex"] }
tokio = { version = "1", default-features = false, features = ["net", "rt-multi-thread", "macros", "sync", "time"] }
toml = "0.8"
uuid = { version = "1", features = ["v4"] }
