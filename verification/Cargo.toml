[package]
name = "eijirs"
version = "0.1.0"
edition = "2021"
publish = false

[dependencies]
sled = "*"
anyhow = "*"
clap = { version = "*", features = ["derive"] }
dirs = "*"
encoding_rs = "*"
encoding_rs_io = "*"
ratatui = "*"
tui-input = "*"
