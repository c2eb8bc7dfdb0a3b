[package]
name = "ckb_tx_codec"
version = "0.1.0"
edition = "2021"
publish = false

[dependencies]
ckb-types = "*"
bytes = "*"
thiserror = "*"
async-graphql = "*"

[dev-dependencies]
faster-hex = "*"
rand = "*"
