[package]
name = "browser_cluster"
version = "0.1.0"
edition = "2021"
publish = false

[dependencies]
async-trait = "0.1"
futures = "0.3"
num_cpus = "1"
thiserror = "1"
tokio = { version = "1", features = ["rt", "sync", "time"] }
