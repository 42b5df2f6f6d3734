[package]
name = "memory_usage"
version = "0.1.0"
edition = "2021"
publish = false

[dependencies]
tree-ds = "=0.2.0"
itertools = "=0.15.0"
serde = { version = "=1.0.229", features = ["derive"] }
sysinfo = "0.33"
