[package]
name = "eomi_core"
version = "0.1.0"
edition = "2021"
publish = false

[dependencies]
miniz_oxide = "*"
ryu = "*"
serde = { version = "*", features = ["derive"] }
serde_json = "*"
log = "*"
anyhow = "*"
