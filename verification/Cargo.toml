[package]
name = "gasless_rln"
version = "0.1.0"
edition = "2021"
publish = false

[dependencies]
rln = "=0.9.0"
zerokit_utils = "=0.7.0"
ark-bn254 = "=0.5.0"
ark-ff = "=0.5.0"
ark-groth16 = "=0.5.0"
ark-relations = "=0.5.1"
ark-serialize = "=0.5.0"
serde = { version = "=1.0.229", features = ["derive"] }
tokio = { version = "=1.54.1", features = ["rt-multi-thread", "macros", "sync", "time"] }
tracing = "=0.1.44"
anyhow = "=1.0.104"
