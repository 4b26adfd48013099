[package]
name = "arxml_language_server"
version = "0.1.0"
edition = "2021"
publish = false

[dependencies]
roxmltree = "*"
regex = "*"
anyhow = "*"
glob = "*"
rayon = "*"
tokio = { version = "1", features = ["full"] }
tower-lsp = "*"
