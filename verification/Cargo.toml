[package]
name = "klaxon"
version = "0.1.0"
edition = "2021"
publish = false

[dependencies]
anyhow = "1"
futures = "0.3"
log = "0.4"
pagerduty-rs = "*"
serde = { version = "1", features = ["derive"] }
