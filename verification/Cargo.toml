[package]
name = "terrabastard"
version = "0.1.0"
edition = "2021"
publish = false

[dependencies]
hcl-rs = "*"
clap = { version = "*", features = ["derive"] }
eyre = "*"
ignore = "*"
serde = { version = "*", features = ["derive"] }
serde_json = { version = "*", features = ["preserve_order"] }
strum = { version = "*", features = ["derive"] }
tracing = "*"
tracing-subscriber = "*"
