[package]
name = "rofl"
version = "0.1.0"
edition = "2021"
publish = false

[dependencies]
fuzzy-matcher = "*"
nvim-rs = { version = "*", features = ["use_tokio"] }
tokio = { version = "1", features = ["full"] }
async-trait = "*"
anyhow = "*"
futures = "*"
log = "*"
simplelog = "*"
dirs-next = "*"
dyn-clone = "*"
