[package]
name = "raptorqr_host"
version = "0.1.0"
edition = "2021"
publish = false

[dependencies]
raptorq = "2"
flate2 = "1"
rxing = "*"
image = "*"
xcap = "*"
