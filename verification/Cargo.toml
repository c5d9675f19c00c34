[package]
name = "ddh_move"
version = "0.1.0"
edition = "2021"
publish = false

[dependencies]
clap = "3.2"
serde = { version = "1", features = ["derive"] }
serde_derive = "1"
serde_json = "1"
