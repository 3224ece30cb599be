[package]
name = "injm"
version = "0.1.0"
edition = "2021"
publish = false

[dependencies]
tree-sitter-language-pack = "*"
clap = { version = "4", features = ["derive"] }
serde = { version = "1", features = ["derive"] }
serde_json = "1"
tabled = "*"
similar = "2"
glob = "0.3"
anyhow = "1"
thiserror = "2"
