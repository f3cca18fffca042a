[package]
name = "pervade"
version = "0.1.0"
edition = "2021"
publish = false

[dependencies]
clap = { version = "=4.5.61", features = ["derive"] }
oxc = { version = "=0.146.0", features = ["semantic"] }
oxc_resolver = "=11.17.1"
tokio = { version = "=1.49.0", features = ["rt", "rt-multi-thread", "fs", "sync", "macros"] }
