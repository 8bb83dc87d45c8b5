[package]
name = "paxos"
version = "0.1.0"
edition = "2021"
publish = false

[dependencies]
bytes = "1"
http = "0.2"
log = "0.4"
prost = "0.10"
tokio = { version = "1", features = ["macros", "rt-multi-thread", "sync"] }
tonic = "0.7"
