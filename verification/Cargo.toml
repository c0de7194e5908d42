[package]
name = "triblespace_net"
version = "0.1.0"
edition = "2021"
publish = false

[dependencies]
anybytes = "*"
anyhow = "1"
blake3 = "1"
ed25519-dalek = "2"
hex = "0.4"
hifitime = "*"
tempfile = "3"
tokio = { version = "1", features = ["io-util", "sync", "rt", "time"] }
tracing = "0.1"
