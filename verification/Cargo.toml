[package]
name = "engram"
version = "0.1.0"
edition = "2021"
publish = false

[dependencies]
anyhow = "=1.0.104"
chrono = "=0.4.45"
clap = { version = "=4.6.7", features = ["derive"] }
fastembed = { version = "=4.9.1", default-features = false, features = ["hf-hub"] }
git2 = { version = "=0.20.4", default-features = false }
hex = "=0.4.3"
ignore = "=0.4.34"
libc = "=0.2.191"
notify = "=8.2.1"
rmcp = { version = "=0.1.5", features = ["server", "transport-io"] }
rusqlite = { version = "=0.32.1", features = ["bundled"] }
serde = { version = "=1.0.229", features = ["derive"] }
serde_json = "=1.0.154"
sha2 = "=0.10.9"
streaming-iterator = "=0.1.9"
tokio = { version = "=1.54.1", features = ["macros", "rt-multi-thread", "sync", "time"] }
tracing = "=0.1.44"
tracing-subscriber = { version = "=0.3.23", features = ["env-filter"] }
tree-sitter = "=0.24.7"
tree-sitter-c = "=0.23.4"
tree-sitter-cpp = "=0.23.4"
tree-sitter-go = "=0.23.4"
tree-sitter-java = "=0.23.5"
tree-sitter-javascript = "=0.23.1"
tree-sitter-python = "=0.23.6"
tree-sitter-ruby = "=0.23.1"
tree-sitter-rust = "=0.23.3"
tree-sitter-typescript = "=0.23.2"
