[package]
name = "any-lsp"
version = "0.1.0"
edition = "2021"
publish = false

[dependencies]
grep = "*"
ignore = "*"
serde_json = "1"
