[package]
name = "vnc"
version = "0.4.0"
edition = "2021"
publish = false

[dependencies]
byteorder = "1"
clap = "4"
env_logger = "*"
flate2 = "1"
log = "0.4"
sdl2 = "*"
x11 = "*"
