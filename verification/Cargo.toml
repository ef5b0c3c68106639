[package]
name = "kvstore"
version = "0.1.0"
edition = "2021"
publish = false

[dependencies]
tokio = { version = "*", features = ["full"] }
anyhow = "*"
dotenvy = "*"
log = "*"
simple_logger = "*"
