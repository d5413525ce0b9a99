[package]
name = "fork_digest"
version = "0.1.0"
edition = "2021"
publish = false

[dependencies]
revm = "*"
serde = { version = "*", features = ["derive"] }
serde_json = "*"
config = "*"
rand = "*"
statrs = "*"
