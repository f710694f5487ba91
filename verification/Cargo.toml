[package]
name = "topology_checker"
version = "0.1.0"
edition = "2021"
publish = false

[dependencies]
anyhow = "*"
clap = { version = "*", features = ["derive"] }
colored = "*"
i_overlay = "*"
regex = "*"
serde = { version = "*", features = ["derive"] }
serde_json = "*"
