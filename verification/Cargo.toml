[package]
name = "rofl"
version = "0.1.0"
edition = "2021"
publish = false

[dependencies]
fuzzy-matcher = "*"
pathdiff = "*"
regex = "*"
log = "*"
simplelog = "*"
dirs-next = "*"
tokio = { version = "*", features = ["full"] }
nvim-rs = { version = "*", features = ["use_tokio"] }
async-trait = "*"
