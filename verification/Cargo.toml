[package]
name = "opfs_project"
version = "0.1.0"
edition = "2021"
publish = false

[dependencies]
petgraph = "*"
serde = { version = "1", features = ["derive"] }
serde_json = "1"
anyhow = "1"
flate2 = "1"
tar = "*"
futures = "*"
reqwest = { version = "*", default-features = false }
tokio-fs-ext = "*"
web-sys = { version = "*", features = ["console"] }
