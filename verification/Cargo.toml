[package]
name = "deltakit"
version = "0.1.0"
edition = "2021"
publish = false

[dependencies]
anyhow = "*"
blake3 = "*"
bytes = "*"
bytesize = "*"
clap = { version = "*", features = ["derive"] }
futures = "*"
humantime = "*"
indicatif = "*"
object_store = "*"
serde = { version = "*", features = ["derive"] }
serde_json = "*"
tokio = { version = "*", features = ["rt-multi-thread", "macros"] }
tracing = "*"
tracing-subscriber = { version = "*", features = ["env-filter", "json"] }
url = "*"
