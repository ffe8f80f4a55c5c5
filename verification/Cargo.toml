[package]
name = "kallos"
version = "0.1.0"
edition = "2021"
publish = false

[dependencies]
tree-sitter = "=0.27.1"
tree-sitter-clingo = "=1.0.3"
unicode-width = "=0.2.3"
clap = { version = "=4.6.7", features = ["derive"] }
anyhow = "=1.0.104"
ignore = "=0.4.34"
similar = "=3.2.1"
