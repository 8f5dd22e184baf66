[package]
name = "sokoban_solver"
version = "0.1.0"
edition = "2021"
publish = false

[dependencies]
fnv = "1"
separator = "0.4"
typed-arena = "2"
clap = { version = "4", features = ["cargo"] }
env_logger = "*"
log = "0.4"
