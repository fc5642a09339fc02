[package]
name = "fed"
version = "0.1.0"
edition = "2021"
publish = false

[dependencies]
unicode-segmentation = "1"
unicode-width = "*"
crossterm = { version = "*", features = ["event-stream"] }
tokio = { version = "1", features = ["full"] }
futures = "0.3"
flume = "*"
