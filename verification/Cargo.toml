[package]
name = "gkr_sumcheck"
version = "0.1.0"
edition = "2021"

[dependencies]
csv = "*"
