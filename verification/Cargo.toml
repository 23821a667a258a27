[package]
name = "mirror_cache"
version = "0.1.0"
edition = "2021"
publish = false

[dependencies]
async-trait = "0.1"
bytes = "1"
futures = "0.3"
redis = "0.25"
tokio = { version = "1", features = ["rt-multi-thread", "sync", "macros", "time"] }
warp = "0.3"
