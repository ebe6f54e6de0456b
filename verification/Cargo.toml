[package]
name = "wordfreq_rs"
version = "0.1.0"
edition = "2021"
publish = false

[dependencies]
anyhow = "*"
clap = { version = "*", features = ["derive"] }

[dev-dependencies]
serde_json = "*"
