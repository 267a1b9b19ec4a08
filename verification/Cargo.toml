[package]
name = "vector"
version = "0.1.0"
edition = "2021"
publish = false

[dependencies]
bytes = "1"
futures = "0.3"
futures-util = "0.3"
glob = "0.3"
indexmap = "2"
metrics = "0.24"
rand = { version = "0.9", features = ["small_rng"] }
rayon = "1"
rdkafka = "0.38"
serde-toml-merge = "0.3"
stream-cancel = "0.8"
tokio = { version = "1", features = ["rt", "sync", "time", "macros"] }
toml = "0.9"
tracing = "0.1"
