[package]
name = "set_covering_problem"
version = "0.1.0"
edition = "2021"
publish = false

[dependencies]
rand = "0.8"
chrono = "0.4"
dotenvy = "0.15"
svg = "0.17"
