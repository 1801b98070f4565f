[package]
name = "varmint"
version = "0.1.0"
edition = "2021"
publish = false

[dependencies]
arrayvec = "0.4"
bytes = "0.4"
futures = "0.1"
tokio-core = "0.1"
