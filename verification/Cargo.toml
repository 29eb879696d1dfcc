[package]
name = "rust_validator"
version = "0.1.0"
edition = "2021"
publish = false

[dependencies]
async-nats = "*"
futures-util = "*"
tokio = { version = "*", features = ["rt-multi-thread", "macros", "time"] }
memmap2 = "*"
chrono = "*"
glob = "*"
rand = "*"
rand_distr = "*"
serde = { version = "*", features = ["derive"] }
serde_json = "*"
