[package]
name = "dex_core"
version = "0.1.0"
edition = "2021"
publish = false

[dependencies]
cosmwasm-schema = "=2.3.5"
cosmwasm-std = "=2.3.5"
cw-storage-plus = "=2.0.0"
cw2 = "=2.0.0"
cw20 = "=2.0.0"
schemars = "=0.8.22"
serde = { version = "=1.0.229", features = ["derive"] }
thiserror = "=1.0.69"
