[package]
name = "lend_protocol"
version = "0.1.0"
edition = "2021"
publish = false

[dependencies]
injective-math = "=0.2.4"
primitive-types = { version = "=0.12.2", default-features = false }
cosmwasm-std = "=1.5.11"
cosmwasm-schema = "=1.5.11"
cosmwasm-storage = "=1.5.2"
cw-storage-plus = "=1.2.0"
cw2 = "=1.1.2"
cw-utils = "=1.0.3"
cw-multi-test = "=0.20.1"
serde = { version = "=1.0.229", default-features = false, features = ["derive"] }
schemars = "=0.8.22"
thiserror = "=1.0.69"
anyhow = "=1.0.104"
sha2 = "=0.10.9"
hex = "=0.4.3"
protobuf = "=2.28.0"
erased-serde = "=0.3.31"
