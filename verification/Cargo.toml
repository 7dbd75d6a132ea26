[package]
name = "wiki_graph"
version = "1.0.0"
edition = "2021"
publish = false

[dependencies]
anyhow = "1"
arrow = "*"
axum = "*"
clap = { version = "4", features = ["derive"] }
hmac = "*"
mimalloc = "*"
parquet = "*"
quick-xml = "*"
rustc-hash = "2"
serde = { version = "1", features = ["derive"] }
serde_json = "1"
sha2 = "*"
tokio = { version = "1", features = ["rt-multi-thread", "net", "time", "sync", "macros"] }
tower-http = { version = "*", features = ["compression-gzip"] }

[dev-dependencies]
regex = "1"
