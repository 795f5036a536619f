[package]
name = "image_layer"
version = "0.1.0"
edition = "2021"
publish = false

[dependencies]
anyhow = "1.0"
async-trait = "0.1"
bytes = "1"
hex = "0.4"
rand = "0.8"
tokio = { version = "1", features = ["sync"] }
tracing = "0.1"

[dev-dependencies]
bincode = "1.3"
