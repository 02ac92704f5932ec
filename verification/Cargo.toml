[package]
name = "device-mapper-tests"
version = "0.1.0"
edition = "2021"
publish = false

[dependencies]
cmd_lib = "1"
libc = "0.2"
tempfile = "3"
tmp_env = "0.1"
