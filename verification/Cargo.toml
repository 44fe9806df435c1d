[package]
name = "witnos"
version = "0.1.0"
edition = "2021"
publish = false

[dependencies]
uuid = { version = "1", features = ["v4"] }
serde = { version = "1", features = ["derive"] }
serde_json = "1"
axum = "0.8"
tokio = { version = "1", features = ["rt-multi-thread", "net", "macros"] }
ureq = { version = "2", default-features = false, features = ["json"] }
portable-pty = "0.8"
libc = "0.2"
