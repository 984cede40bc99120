[package]
name = "ceno"
version = "0.1.0"
edition = "2021"
publish = false

[dependencies]
clap = { version = "4", features = ["derive"] }
p3-field = "=0.2.0"
p3-goldilocks = "=0.2.0"
p3-matrix = "=0.2.0"
rand = "0.8"
tiny-keccak = { version = "2", features = ["keccak"] }
tracing = "0.1"
tracing-forest = "*"
tracing-subscriber = { version = "0.3", features = ["env-filter"] }
