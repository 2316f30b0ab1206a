[package]
name = "comm"
version = "0.1.0"
edition = "2021"
publish = false

[dependencies]
clap = "2"
env_logger = "0.3"
log = "0.3"
mio = "0.5"
num = "0.1"
protobuf = "1"
rand = "0.3"
rust-crypto = "0.2"
rustc-serialize = "0.3"
time = "0.1"
