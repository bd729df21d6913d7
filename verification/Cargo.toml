[package]
name = "realtime_state"
version = "0.1.0"
edition = "2021"
publish = false

[dependencies]
dashmap = "5"
serde = { version = "1", features = ["derive"] }
serde_json = "1"
tokio = { version = "1", features = ["full"] }
warp = "0.3"
futures = "0.3"
tokio-stream = "0.1"
redis-async = "*"
redis = { version = "*", features = ["aio", "tokio-comp"] }
snowflake = "1"
lazy_static = "1"
rocket = "0.5"
jsonwebtoken = "*"
json = "0.12"
async-trait = "0.1"
