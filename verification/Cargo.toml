[package]
name = "runner_directives"
version = "0.1.0"
edition = "2021"
publish = false

[dependencies]
clap = { version = "*", features = ["derive"] }
glob = "*"
serde = { version = "*", features = ["derive"] }
serde_json = "*"
tree-sitter = "*"
tree-sitter-typescript = "*"
swc_core = { version = "*", features = ["ecma_ast", "ecma_visit", "common"] }
