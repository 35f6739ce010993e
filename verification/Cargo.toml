[package]
name = "oxidns"
version = "0.1.0"
edition = "2021"
publish = false

[dependencies]
arc-swap = "1"
async-trait = "0.1"
futures = "0.3"
hotpath = "*"
prost = "*"
rand = "0.9"
tokio = { version = "1", features = ["macros", "rt", "sync", "time"] }
tracing = "0.1"
