[package]
name = "domain_blocklist"
version = "0.1.0"
edition = "2021"
publish = false

[dependencies]
anyhow = "*"
log = "*"
num-format = "*"
reqwest = { version = "*", default-features = false }
tokio = { version = "*", features = ["fs", "macros", "rt-multi-thread", "sync"] }
url = "*"
