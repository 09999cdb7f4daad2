[package]
name = "image_hct"
version = "0.1.0"
edition = "2021"
publish = false

[dependencies]
material-colors = "=0.4.2"
clap = { version = "=4.6.7", features = ["derive"] }
image = "=0.25.10"
rayon = "=1.12.0"
log = "=0.4.34"
env_logger = "=0.11.11"
