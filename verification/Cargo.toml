[package]
name = "sail_execution"
version = "0.1.0"
edition = "2021"
publish = false

[dependencies]
chrono = { version = "*", default-features = false, features = ["std", "clock"] }
indexmap = "2"
tokio = { version = "1", default-features = false, features = ["sync"] }
futures = "0.3"
prost = "*"
tonic = { version = "*", default-features = false, features = ["codegen"] }
datafusion = { version = "*", default-features = false }
datafusion-proto = { version = "*", default-features = false }
