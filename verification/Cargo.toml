[package]
name = "mogglo"
version = "0.1.0"
edition = "2021"
publish = false

[dependencies]
tree-sitter = "0.20"
tree-sitter-rust = "0.20"
rlua = "0.19"
regex = "1"
serde_json = "1"
anyhow = "1"
ariadne = "0.4"
clap = { version = "4", features = ["derive"] }
