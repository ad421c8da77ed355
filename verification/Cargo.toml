[package]
name = "dataflow_core"
version = "0.1.0"
edition = "2021"
publish = false

[dependencies]
vec_map = { version = "=0.8.2", features = ["serde"] }
bincode = "=1.3.3"
nom-sql = "=0.0.11"
serde = { version = "=1.0.229", features = ["derive"] }
net2 = "0.2"
