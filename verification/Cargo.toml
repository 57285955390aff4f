[package]
name = "filterfs"
version = "0.1.0"
edition = "2021"
publish = false

[dependencies]
glob = "0.3"
libc = "0.2"
fuser = "*"
log = "0.4"
env_logger = "*"
clap = { version = "4", features = ["derive"] }
nix = { version = "*", features = ["process"] }
