[package]
name = "stric"
version = "0.1.0"
edition = "2021"
publish = false

[dependencies]
sha2 = "0.10"
petgraph = "0.6"
quinn = "0.11"
tokio = { version = "1", features = ["full"] }
anyhow = "1"
thiserror = "2"
rand = "0.8"
governor = "0.6"
dashmap = "6"
tracing = "0.1"
prost = "0.13"
bincode = "1"
serde = { version = "1", features = ["derive"] }
serde_json = "1"
bytes = "1"
http = "1"
http-body = "1"
http-body-util = "0.1"
tower = { version = "0.5", features = ["util"] }
futures = "0.3"
async-trait = "0.1"
rcgen = "0.14"
