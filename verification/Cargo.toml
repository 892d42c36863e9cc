[package]
name = "exchange_rate_path"
version = "0.1.0"
edition = "2021"
publish = false

[dependencies]
indexmap = "*"
chrono = { version = "0.4", default-features = false, features = ["std"] }
num-traits = "0.2"

[dev-dependencies]
safe-graph = "*"
floyd-warshall-alg = "*"
