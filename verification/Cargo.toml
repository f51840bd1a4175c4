[package]
name = "super_antenna"
version = "0.1.0"
edition = "2021"
publish = false

[dependencies]
env_logger = "0.11"
futures-util = "0.3"
log = "0.4"
prometheus = { version = "0.13", default-features = false }
reqwest = { version = "0.12", default-features = false, features = ["json", "stream", "rustls-tls"] }
serde = { version = "1", features = ["derive"] }
serde_json = "1"
tokio = { version = "1", features = ["macros", "rt-multi-thread", "time"] }
warp = { version = "0.3", default-features = false }
