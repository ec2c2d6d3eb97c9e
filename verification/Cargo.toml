[package]
name = "strata_index"
version = "0.1.0"
edition = "2021"
publish = false

[dependencies]
blake3 = "1"
ignore = "0.4"
serde = { version = "1", features = ["derive"] }
serde_json = { version = "1", features = ["raw_value"] }
tantivy = "*"
toml = "0.8"
tree-sitter = "0.25"
tree-sitter-c-sharp = "*"
tree-sitter-javascript = "*"
tree-sitter-python = "*"
tree-sitter-rust = "*"
tree-sitter-typescript = "*"
