[package]
name = "aegiuw_core"
version = "0.1.0"
edition = "2021"
publish = false

[dependencies]
md-5 = "0.10"
memchr = "2"
serde = { version = "1", features = ["derive"] }
anyhow = "1"
