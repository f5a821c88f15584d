[package]
name = "search_semantically"
version = "0.1.0"
edition = "2021"
publish = false

[dependencies]
serde_json = "=1.0.154"
tree-sitter = "=0.25.10"
tree-sitter-rust = "=0.24.2"
anyhow = "=1.0.104"
dirs = "=6.0.0"
ignore = "=0.4.34"
rusqlite = { version = "=0.37.0", features = ["bundled"] }
reqwest = { version = "=0.12.28", default-features = false, features = ["blocking", "rustls-tls"] }
ndarray = "=0.17.2"
ort = { version = "=2.0.0-rc.15", default-features = false, features = ["std", "ndarray", "load-dynamic"] }
tokenizers = { version = "=0.21.4", default-features = false, features = ["onig"] }
