[package]
name = "wordle_solver"
version = "0.1.0"
edition = "2021"
publish = false

[dependencies]
ansi_term = "0.12"
clap = { version = "3", features = ["derive"] }
dialoguer = { version = "0.10", features = ["fuzzy-select"] }
num-format = "0.4"
reqwest = { version = "0.11", default-features = false, features = ["blocking"] }
