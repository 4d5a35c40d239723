[package]
name = "raft_kv"
version = "0.1.0"
edition = "2021"
publish = false

[dependencies]
async-trait = "0.1"
bon = "3"
moka = { version = "0.12", features = ["sync"] }
postcard = { version = "1", features = ["use-std"] }
rand = "0.9"
serde = { version = "1", features = ["derive"] }
tempfile = "3"
thiserror = "2"
tokio = { version = "1", features = ["macros", "rt-multi-thread", "sync", "time"] }
tracing = "0.1"
twox-hash = "2"
zerocopy = "0.8"
