[package]
name = "chain_reaction"
version = "0.1.0"
edition = "2021"
publish = false

[dependencies]
grid = "*"
yew = { version = "0.21", features = ["csr"] }
