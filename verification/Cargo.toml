[package]
name = "clj_pulse"
version = "0.1.0"
edition = "2021"
publish = false

[dependencies]
anyhow = "1"
bincode = "1"
dashmap = "6"
edn-format = "3"
futures = "0.3"
ignore = "0.4"
rayon = "1"
ropey = "1"
serde = { version = "1", features = ["derive"] }
serde_json = "1"
tokio = { version = "1", features = ["full"] }
tower-lsp = "0.20"
tower-service = "0.3"
tracing = "0.1"
tracing-appender = "0.2"
tracing-subscriber = "0.3"
tree-sitter = "0.25"
tree-sitter-clojure = "*"
tree-sitter-language = "0.1"
zip = "2"

[dev-dependencies]
tempfile = "3"
