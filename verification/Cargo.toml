[package]
name = "robmcf_greedy"
version = "0.1.0"
edition = "2021"
publish = false

[dependencies]
serde = { version = "=1.0.229", features = ["derive"] }
serde_json = "=1.0.154"
clap = { version = "=4.6.7", features = ["derive"] }
rand = "=0.8.8"
log = "=0.4.35"
env_logger = "=0.11.11"
colored = "=2.2.0"
rayon = "=1.12.0"
strum = { version = "=0.26.3", features = ["derive"] }
grb = { version = "=3.0.1", features = ["gurobi12"] }
