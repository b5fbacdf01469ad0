[package]
name = "pyrisk"
version = "0.1.0"
edition = "2021"
publish = false

[dependencies]
anyhow = "1"
bincode = "1"
clap = { version = "4", features = ["derive"] }
comfy-table = "7"
git2 = { version = "0.19", default-features = false }
ignore = "0.4"
indicatif = "0.17"
rayon = "1"
serde = { version = "1", features = ["derive"] }
serde_json = "1"
sled = "0.34"
tree-sitter = "0.24"
tree-sitter-python = "0.23"
walkdir = "2"
