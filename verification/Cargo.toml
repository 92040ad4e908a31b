[package]
name = "pollard_rho"
version = "0.1.0"
edition = "2021"

[dependencies]
sha2 = "0.10"
hex = "0.4"
rand = "0.8"
