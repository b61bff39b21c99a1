[package]
name = "commitlog"
version = "0.1.0"
edition = "2021"
publish = false

[dependencies]
memmap2 = "0.9"
prost = "0.13"
tokio = { version = "1", features = ["fs", "io-util", "macros", "rt-multi-thread"] }
