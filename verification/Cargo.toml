[package]
name = "polycommit"
version = "0.1.0"
edition = "2021"
publish = false

[dependencies]
pasta_curves = "0.5"
rand = "0.8"
