[package]
name = "graph_chain_aztec"
version = "0.1.0"
edition = "2021"
publish = false

[dependencies]
anyhow = "=1.0.104"
async-trait = "=0.1.92"
hex = "=0.4.3"
prost = "=0.14.4"
prost-types = "=0.14.4"
reqwest = { version = "=0.12.28", default-features = false, features = ["json"] }
semver = "=1.0.28"
serde = { version = "=1.0.229", features = ["derive"] }
serde_json = "=1.0.154"
tokio = { version = "=1.54.1", features = ["time"] }
