[package]
name = "btc_light_client"
version = "0.1.0"
edition = "2021"
publish = false

[dependencies]
sha2 = "0.10"
cosmwasm-std = "1.5"
cosmwasm-schema = "1.5"

[dev-dependencies]
hex = "0.4"
