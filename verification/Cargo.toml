[package]
name = "mrc_sim"
version = "0.1.0"
edition = "2021"
publish = false

[dependencies]
rustc-hash = "2"
csv = "1"
rayon = "1"
clap = { version = "4", features = ["derive"] }
