[package]
name = "envoy_render"
version = "0.1.0"
edition = "2021"
publish = false

[dependencies]
anyhow = "1"
serde = { version = "1", features = ["derive"] }
serde_json = "1"
serde_yaml_ng = "0.10"

[dev-dependencies]
mlua = { version = "0.10", features = ["lua54", "vendored"] }
