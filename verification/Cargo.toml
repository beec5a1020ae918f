[package]
name = "sift"
version = "0.1.0"
edition = "2021"
publish = false

[dependencies]
anyhow = "=1.0.104"
clap = { version = "=4.6.7", features = ["derive"] }
ignore = "=0.4.34"
model2vec-rs = "=0.4.0"
postcard = { version = "=1.1.3", features = ["alloc"] }
rand = "=0.10.3"
rayon = "=1.12.0"
serde = { version = "=1.0.229", features = ["derive"] }
serde_json = "=1.0.154"
tree-sitter = "=0.27.1"
tree-sitter-cpp = "=0.23.4"
tree-sitter-java = "*"
tree-sitter-python = "=0.25.0"
tree-sitter-rust = "=0.24.2"

[dev-dependencies]
tempfile = "=3.27.0"
