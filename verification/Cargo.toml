[package]
name = "ankifruit_core"
version = "0.1.0"
edition = "2021"
publish = false

[dependencies]
anyhow = "=1.0.104"
axum = "=0.8.9"
prost = "=0.13.5"
rand = "=0.9.5"
tokio = { version = "=1.54.1", features = ["rt-multi-thread", "net", "sync", "macros", "fs"] }
