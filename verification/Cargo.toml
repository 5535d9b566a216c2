[package]
name = "rustowl"
version = "0.1.0"
edition = "2021"
publish = false

[dependencies]
clap = { version = "=4.6.7", features = ["derive"] }
clap_complete = "4"
flate2 = "1"
foldhash = "0.2"
indexmap = "2"
serde = { version = "=1.0.229", features = ["derive"] }
serde_json = "=1.0.154"
tar = "0.4"
