[package]
name = "vrcx_insights"
version = "0.1.0"
edition = "2021"
publish = false

[dependencies]
serde = { version = "*", features = ["derive"] }
ron = "*"
petgraph = "*"
sqlx = { version = "*", features = ["runtime-tokio", "sqlite", "macros"] }
tokio = { version = "*", features = ["rt-multi-thread", "macros", "time"] }
indicatif = "*"
