[package]
name = "puddle-core"
version = "0.1.0"
edition = "2021"
publish = false

[dependencies]
indexmap = { version = "=1.9.3", features = ["std"] }
nalgebra = "0.30"
ncollide2d = "0.33"
clap = "=2.34.0"
env_logger = "=0.6.2"
log = "=0.4.34"
