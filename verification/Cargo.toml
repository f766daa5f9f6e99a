[package]
name = "miniraft"
version = "0.1.0"
edition = "2021"
publish = false

[dependencies]
rand = "0.8"
rand_chacha = "0.3"
rand_core = { version = "0.6", features = ["getrandom"] }
colored = "2"
random_color = "*"
env_logger = "*"
log = "0.4"
anyhow = "1"
