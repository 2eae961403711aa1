[package]
name = "ldpc_frames"
version = "0.1.0"
edition = "2021"
publish = false

[dependencies]
labrador-ldpc = "*"
clap = { version = "*", features = ["derive"] }
dpc-pariter = "*"
num = "*"
