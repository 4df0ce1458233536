[package]
name = "tidemark"
version = "0.1.1"
edition = "2021"
publish = false

[dependencies]
blake3 = "1"
jiff = "0.2"
similar = "2"
clap = { version = "4", features = ["derive"] }
ignore = "0.4"
owo-colors = "4"
serde = { version = "1", features = ["derive"] }
serde_json = "1"

[dev-dependencies]
serde_json = "1"
