[package]
name = "dep_complete"
version = "0.1.0"
edition = "2021"
publish = false

[dependencies]
serde_json = "*"
tokio = { version = "*", features = ["full"] }
tower-lsp = "*"
dashmap = "*"
ropey = "*"
