[package]
name = "market_square"
version = "0.3.0"
edition = "2021"
publish = false

[dependencies]
rand = "0.9"
