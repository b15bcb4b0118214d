[package]
name = "rx_dex"
version = "0.1.0"
edition = "2021"
publish = false

[dependencies]
rust_decimal = { version = "1", features = ["maths"] }
cosmwasm-std = "2"
cw2 = "2"
cw-storage-plus = "2"
serde = { version = "1", features = ["derive"] }
thiserror = "1"
axum = "0.7"
tokio = { version = "1", features = ["rt-multi-thread", "macros", "net", "time"] }
