[package]
name = "nirust"
version = "0.1.0"
edition = "2021"
publish = false

[dependencies]
clap = { version = "*", features = ["derive"] }
log = "*"
ndarray = "*"
nifti = { version = "*", features = ["ndarray_volumes"] }
simple_logger = "*"
