[package]
name = "h5i_db_backtest"
version = "0.1.0"
edition = "2021"
publish = false

[dependencies]
blake3 = { version = "1", default-features = false, features = ["std", "pure"] }
arrow = { version = "*", default-features = false }
futures = "0.3"
serde_json = "1"
thiserror = "*"
tracing = "0.1"
