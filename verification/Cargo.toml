[package]
name = "plecto"
version = "0.1.0"
edition = "2021"
publish = false

[dependencies]
bytes = "1"
http-body-util = "0.1"
hyper = { version = "1", features = ["client", "http1"] }
hyper-util = { version = "0.1", features = ["client", "client-legacy", "http1", "tokio"] }
parking_lot = "0.12"
tokio = { version = "1", features = ["macros", "rt", "time"] }
