[package]
name = "stateres_core"
version = "0.1.0"
edition = "2021"
publish = false

[dependencies]
sha2 = "*"
ruma = { version = "*", features = ["state-res"] }
futures = "*"
tokio = { version = "*", features = ["sync", "rt"] }
