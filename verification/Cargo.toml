[package]
name = "read_buffer"
version = "0.1.0"
edition = "2021"
publish = false

[dependencies]
itertools = "0.9"
arrow = { version = "*", default-features = false }
snafu = "0.6"
