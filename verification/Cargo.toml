[package]
name = "transport_server"
version = "0.1.0"
edition = "2021"
publish = false

[dependencies]
uuid = "1"
tokio = { version = "1", default-features = false, features = ["sync"] }
async-trait = "0.1"
