[package]
name = "snapcall"
version = "0.1.0"
edition = "2021"
publish = false

[dependencies]
rs_poker = { version = "=4.1.0", default-features = false }
rand = "=0.9.5"
clap = { version = "=4.6.7", features = ["derive"] }
