[package]
name = "circuit_verification"
version = "0.1.0"
edition = "2021"
publish = false

[dependencies]
num-bigint-dig = "0.6"
num-traits = "0.2"
itertools = "0.10"
clap = { version = "4", features = ["cargo"] }
colored = "2"
graphviz-rust = "*"
indoc = "2"
serde = { version = "1", features = ["derive"] }
serde_json = "1"
which = "4"
