[package]
name = "skeletree"
version = "0.1.0"
edition = "2021"
publish = false

[dependencies]
blake3 = "1"
rusqlite = { version = "0.31", features = ["bundled"] }
ignore = "0.4"
rayon = "1"
thiserror = "1"
serde = { version = "1", features = ["derive"] }
clap = { version = "4", features = ["derive"] }
rmcp = { version = "*", features = ["server", "transport-io"] }
tokio = { version = "1", features = ["rt-multi-thread"] }
tracing-subscriber = { version = "0.3", features = ["env-filter"] }
anyhow = "1"
tree-sitter = "0.22"
tree-sitter-python = "0.21"
tree-sitter-javascript = "0.21"
tree-sitter-rust = "0.21"
tree-sitter-typescript = "0.21"
