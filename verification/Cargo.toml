[package]
name = "libyaml"
version = "0.2.5"
edition = "2021"
publish = false

[dependencies]
libc = "0.2"
