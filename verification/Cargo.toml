[package]
name = "cargo-vet"
version = "0.10.1"
edition = "2021"
publish = false

[dependencies]
console = "0.15"
futures-util = "0.3"
guppy = "0.17"
miette = "5"
serde = { version = "1", features = ["derive"] }
serde_json = "1"
tokio = { version = "1", features = ["rt"] }
tracing = "0.1"
