[package]
name = "eyedropper"
version = "0.1.0"
edition = "2021"
publish = false

[dependencies]
anyhow = "1"
ashpd = { version = "0.12", default-features = false, features = ["tokio"] }
env_logger = "0.11"
i18n-embed = { version = "0.16", features = ["desktop-requester"] }
image = { version = "0.25", default-features = false, features = ["png"] }
log = "0.4"
serde = { version = "1", features = ["derive"] }
tokio = { version = "1", features = ["sync", "time", "rt"] }
zbus = { version = "5", default-features = false, features = ["tokio", "blocking-api"] }
