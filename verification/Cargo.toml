[package]
name = "time_index"
version = "0.1.0"
edition = "2021"
publish = false

[dependencies]
chrono = { version = "=0.4.45", default-features = false, features = ["std", "clock"] }
petgraph = "=0.6.5"
permutation = "=0.4.1"
thiserror = "=1.0.69"
hdk = "=0.1.6"
hdi = "=0.2.6"
rmp = "=0.8.10"
serde = { version = "=1.0.166", features = ["derive"] }
