[package]
name = "poa_finality"
version = "0.1.0"
edition = "2021"
publish = false

[dependencies]
sp-io = "*"
parity-scale-codec = { version = "*", features = ["derive"] }

[dev-dependencies]
libsecp256k1 = "*"
