[package]
name = "raft_rs"
version = "0.1.0"
edition = "2021"
publish = false

[dependencies]
s2n-codec = "=0.91.0"
tokio = { version = "=1.54.1", features = ["rt", "time", "macros", "net"] }
rand = "=0.8.8"
