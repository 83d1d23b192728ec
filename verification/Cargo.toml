[package]
name = "atomic_swap"
version = "0.1.0"
edition = "2021"
publish = false

[dependencies]
cosmwasm-schema = "1.5"
cosmwasm-std = "1.5"
cw-storage-plus = "1.2"
cw20 = "1.1"

[dev-dependencies]
sha2 = "0.10"
