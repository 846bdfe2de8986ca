[package]
name = "rust_ca"
version = "0.2.2"
edition = "2021"
publish = false

[dependencies]
clap = { version = "3", features = ["derive"] }
flate2 = "1"
gif = "0.11"
rand = "0.8"
rand_distr = "0.4"
