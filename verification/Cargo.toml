[package]
name = "routesets"
version = "0.1.0"
edition = "2021"
publish = false

[dependencies]
sqlx = { version = "*", features = ["sqlite", "runtime-tokio"] }
tokio = { version = "*", features = ["rt", "macros"] }
futures = "*"
