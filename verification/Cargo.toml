[package]
name = "query_pipeline"
version = "0.1.0"
edition = "2021"
publish = false

[dependencies]
chrono = { version = "0.4", default-features = false, features = ["clock"] }
serde = { version = "1", features = ["derive"] }
futures-util = "0.3"
opendal = { version = "*", default-features = false }
parking_lot = "0.12"
tracing = "0.1"
async-trait = "0.1"
async-backtrace = "0.2"
