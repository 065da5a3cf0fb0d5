[package]
name = "tequio"
version = "0.1.0"
edition = "2021"
publish = false

[dependencies]
rust-ini = "0.21.3"
kill_tree = { version = "0.2.4", features = ["tokio"] }
tokio = { version = "1", features = ["full"] }
