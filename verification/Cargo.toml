[package]
name = "image_ffi"
version = "0.1.0"
edition = "2021"
publish = false

[dependencies]
clap = { version = "4", features = ["derive"] }
env_logger = "0.11"
log = "0.4"
image = { version = "0.25", default-features = false, features = ["png"] }
libloading = "0.8"
thiserror = "2"
