[package]
name = "gkd"
version = "0.1.0"
edition = "2021"
publish = false

[dependencies]
async-std = "1"
byteorder = "1"
bytes = "1"
futures = "0.3"
log = "0.4"
