[package]
name = "quant_trader"
version = "0.1.0"
edition = "2021"
publish = false

[dependencies]
uuid = { version = "1", features = ["v4"] }
anyhow = "1"
chrono = "0.4"
dotenvy = "0.15"
futures = "0.3"
nalgebra = { version = "*", default-features = false, features = ["std"] }
parking_lot = "0.12"
rust_decimal = { version = "1", default-features = false, features = ["std"] }
serde_json = "1"
statrs = { version = "*", default-features = false }
tokio = { version = "1", features = ["rt-multi-thread", "macros", "time"] }
tracing = "0.1"
tracing-subscriber = { version = "0.3", features = ["env-filter"] }
