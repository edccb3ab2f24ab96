[package]
name = "webapps_common"
version = "0.1.0"
edition = "2021"
publish = false

[dependencies]
anyhow = "*"
tracing = "*"
tracing-subscriber = { version = "*", features = ["env-filter"] }

[dev-dependencies]
serde_yaml = "*"
