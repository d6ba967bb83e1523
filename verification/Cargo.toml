[package]
name = "stats_ci"
version = "0.1.0"
edition = "2021"
publish = false

[dependencies]
statrs = "*"

[dev-dependencies]
rand = "*"
