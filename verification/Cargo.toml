[package]
name = "mak"
version = "0.1.0"
edition = "2021"
publish = false

[dependencies]
async-std = "1"
clap = { version = "4", features = ["derive"] }
clap_complete = "4"
futures = "0.3"
indexmap = { version = "2", features = ["serde"] }
indicatif = "0.17"
serde = { version = "1", features = ["derive"] }
serde_json = "1"
