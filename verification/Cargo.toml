[package]
name = "status_table"
version = "0.1.0"
edition = "2021"
publish = false

[dependencies]
roxmltree = "*"
anyhow = "*"
clap = { version = "*", features = ["derive"] }

[dev-dependencies]
csv = "*"
