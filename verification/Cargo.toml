[package]
name = "ikigai_core"
version = "0.1.0"
edition = "2021"
publish = false

[dependencies]
blake3 = { version = "1", features = ["pure"] }
oxiri = "0.2"
serde = { version = "1", features = ["derive"] }
serde_json = "1"
async-trait = "0.1"
futures-util = "0.3"
futures-channel = "0.3"

[dev-dependencies]
futures = "0.3"
