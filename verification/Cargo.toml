[package]
name = "veloren_core"
version = "0.1.0"
edition = "2021"
publish = false

[dependencies]
async-std = "*"
futures = "*"
log = "*"
simplelog = "*"
specs = "*"
tracing = "*"
