[package]
name = "broadcast_core"
version = "0.1.0"
edition = "2021"
publish = false

[dependencies]
chrono = "*"
v_htmlescape = "*"

[dev-dependencies]
serde_json = "*"
