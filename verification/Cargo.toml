[package]
name = "htmx_intro"
version = "0.1.0"
edition = "2021"
publish = false

[dependencies]
webauthn-rs = "0.4"
uuid = { version = "1", features = ["v4"] }
serde_json = "1"
url = "2"
serde = { version = "1", features = ["derive"] }
tokio = { version = "1", features = ["rt-multi-thread", "macros", "sync"] }
axum = { version = "0.6", features = ["headers"] }
