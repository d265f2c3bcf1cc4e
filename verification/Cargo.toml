[package]
name = "fff_gpui"
version = "0.1.0"
edition = "2021"
publish = false

[dependencies]
anyhow = "1"
async-channel = "2"
fff-query-parser = "0.6"
fff-search = "0.6"
global-hotkey = "*"
mimalloc = "*"
json5 = "*"
rust-embed = "8"
serde = { version = "1", features = ["derive"] }
serde_json = "1"
smol = "2"
toml = "*"
tracing = "0.1"
tracing-subscriber = { version = "0.3", features = ["env-filter"] }
tree-sitter = "0.25"
tree-sitter-bash = "*"
tree-sitter-c = "*"
tree-sitter-cpp = "*"
tree-sitter-css = "*"
tree-sitter-go = "*"
tree-sitter-highlight = "0.25"
tree-sitter-html = "*"
tree-sitter-javascript = "*"
tree-sitter-json = "*"
tree-sitter-md = "*"
tree-sitter-python = "*"
tree-sitter-regex = "*"
tree-sitter-rust = "*"
tree-sitter-typescript = "*"
tree-sitter-yaml = "*"
