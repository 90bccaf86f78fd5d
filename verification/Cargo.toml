[package]
name = "pool_delegators"
version = "0.1.0"
edition = "2021"
publish = false

[dependencies]
borsh = "=1.8.1"
chrono = "=0.4.45"
color-eyre = "=0.6.5"
easy-ext = "=0.2.9"
futures = "=0.3.34"
git2 = { version = "0.20", default-features = false }
log = "=0.4.34"
near-jsonrpc-client = "=0.22.0"
near-jsonrpc-primitives = "=0.37.4"
near-primitives = "=0.37.4"
pretty_env_logger = "=0.5.0"
rocket = { version = "=0.5.2", features = ["json"] }
serde = { version = "=1.0.229", features = ["derive"] }
serde_json = "=1.0.154"
tokio = { version = "=1.54.1", features = ["full"] }
