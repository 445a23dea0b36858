[package]
name = "nix_eval_error"
version = "0.1.0"
edition = "2021"
publish = false

[dependencies]
miette = { version = "7", default-features = false }
