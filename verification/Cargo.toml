[package]
name = "strategy_haven"
version = "0.1.0"
edition = "2021"
publish = false

[dependencies]
rand = "0.9"
rustc-hash = "2"
itertools = "0.14"
serde = { version = "1", features = ["derive"] }
ron = "*"
colored = "*"
