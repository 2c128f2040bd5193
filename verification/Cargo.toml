[package]
name = "problem_generator"
version = "0.3.0"
edition = "2021"
publish = false

[dependencies]
rand = "=0.8.8"
rand_chacha = "=0.3.1"
structopt = "=0.3.26"
itertools = "=0.10.5"
indicatif = "=0.17.11"
log = "=0.4.34"
serde = { version = "=1.0.229", features = ["derive"] }
