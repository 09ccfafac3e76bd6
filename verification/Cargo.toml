[package]
name = "fomoxa_codec_bench"
version = "0.1.0"
edition = "2021"
publish = false

[dependencies]
capnp = { version = "=0.27.3", features = ["unaligned"] }
prost = "=0.14.4"
