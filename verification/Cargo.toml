[package]
name = "playform"
version = "0.1.0"
edition = "2021"
publish = false

[dependencies]
num = "=0.4.3"
log = "=0.4.34"
hound = "=3.5.1"
cgmath = "=0.18.0"
env_logger = "*"
