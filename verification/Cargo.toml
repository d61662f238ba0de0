[package]
name = "tgif"
version = "0.1.0"
edition = "2021"
publish = false

[dependencies]
camino = "=1.2.6"
chrono = "=0.4.45"
clap = { version = "=4.6.7", features = ["derive"] }
env_logger = "=0.11.11"
image = "=0.25.10"
log = "=0.4.34"
ndarray = "=0.16.1"
nshare = { version = "=0.10.0", default-features = false, features = ["image", "ndarray"] }
rayon = "=1.12.0"
