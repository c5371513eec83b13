[package]
name = "cjk_search"
version = "0.1.0"
edition = "2021"
publish = false

[dependencies]
jieba-rs = "*"
csv = "*"
serde = { version = "*", features = ["derive"] }
serde_with = "*"
