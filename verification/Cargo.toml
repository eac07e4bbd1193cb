[package]
name = "gomoku_ai"
version = "0.1.0"
edition = "2021"
publish = false

[dependencies]
ndarray = "*"
rand = "*"
rand_distr = "*"
clap = { version = "*", features = ["derive"] }
crossbeam-channel = "*"
crossterm = "*"
ratatui = { version = "*", default-features = false, features = ["crossterm"] }
futures = { version = "*", features = ["thread-pool"] }
futures-executor = { version = "*", features = ["thread-pool"] }
indicatif = "*"
rayon = "*"
burn = { version = "*", default-features = false }
