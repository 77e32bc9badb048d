[package]
name = "texpand"
version = "0.1.0"
edition = "2021"
publish = false

[dependencies]
tree-sitter = "*"
tree-sitter-cpp = "*"
petgraph = "*"
anyhow = "1"
clap = { version = "4", features = ["derive"] }
serde = { version = "1", features = ["derive"] }
serde_json = "1"
toml = "*"
arboard = { version = "3", default-features = false }
nix = { version = "*", features = ["process"] }
wasm-bindgen = "0.2"
