[package]
name = "py_checked_exceptions"
version = "0.1.0"
edition = "2021"
publish = false

[dependencies]
anyhow = "1"
clap = { version = "4", features = ["derive"] }
colored = "3"
crossbeam = "0.8"
indicatif = "0.18"
itertools = "=0.14.0"
rayon = "1"
