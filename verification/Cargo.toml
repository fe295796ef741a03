[package]
name = "stream_buffer"
version = "0.1.0"
edition = "2021"
publish = false

[dependencies]
bytes = "1"

[dev-dependencies]
rand = "0.8"
