[package]
name = "xv6sh"
version = "0.1.0"
edition = "2021"
publish = false

[dependencies]
smol = "1"
libc = "0.2"
event-listener = "2"
