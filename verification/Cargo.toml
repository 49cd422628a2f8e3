[package]
name = "commentreducr"
version = "0.1.0"
edition = "2021"
publish = false

[dependencies]
anyhow = "1"
clap = { version = "4", features = ["derive"] }
minreq = { version = "2", features = ["json-using-serde"] }
regex = "1"
serde = { version = "1", features = ["derive"] }
serde_json = "1"
tree-sitter = "*"
tree-sitter-python = "*"
tree-sitter-javascript = "*"
tree-sitter-typescript = "*"
tree-sitter-yaml = "*"
